//! What holds of reading a whole value log file.

use crate::codec::{law_le_u32_is_its_bytes, le_u16_bytes, le_u32, le_u32_bytes};
use crate::error::StorageError;
use crate::vlog::checksum::{crc32, law_changed_byte_changes_the_checksum};
use crate::vlog::reader::{
    checked_entry, misfit, value_corruption, EntryReadView, HeaderIteratorView, PendingEntryView,
    ReadRequest, VlogEntryMetaView,
};
use crate::vlog::{
    entry_size, law_entry_header_read_back, law_entry_header_write_back, law_entry_size,
    law_entry_size_is_the_next_multiple_of_eight, EntryHeaderView, ValuePointer, VlogEntryView,
    ALIGNMENT, HEADER_SIZE,
};
use vstd::prelude::*;

verus! {

/// The header in `file` at `offset`.
pub open spec fn header_in(file: Seq<u8>, offset: int) -> EntryHeaderView {
    EntryHeaderView::decoded(file.subrange(offset, offset + HEADER_SIZE))
}

/// The key in `file` behind the header at `offset`.
pub open spec fn key_in(file: Seq<u8>, offset: int) -> Seq<u8> {
    let start = offset + HEADER_SIZE;
    file.subrange(start, start + header_in(file, offset).key_len)
}

/// The value in `file` behind the header and the key at `offset`.
pub open spec fn value_in(file: Seq<u8>, offset: int) -> Seq<u8> {
    let header = header_in(file, offset);
    let start = offset + HEADER_SIZE + header.key_len;
    file.subrange(start, start + header.value_len)
}

/// What reading the entry of `size` bytes at `offset` in `file` comes to; `None` where the file
/// ends too early.
pub open spec fn entry_in(file: Seq<u8>, offset: u64, size: u32) -> Option<
    Result<VlogEntryView, StorageError>,
> {
    let header = header_in(file, offset as int);
    if size < HEADER_SIZE {
        Some(Err(StorageError::EntryTooSmall { size: size as usize }))
    } else if offset + HEADER_SIZE > file.len() {
        None
    } else if misfit(header, size) is Some {
        Some(Err(misfit(header, size)->0))
    } else if offset + HEADER_SIZE + header.key_len + header.value_len > file.len() {
        None
    } else {
        Some(
            checked_entry(
                offset,
                size,
                header,
                key_in(file, offset as int),
                value_in(file, offset as int),
            ),
        )
    }
}

/// Answering the requests of a reading from a file makes it come to what the file holds there.
pub proof fn law_read_entry(file: Seq<u8>, offset: u64, size: u32)
    requires
        file.len() <= u64::MAX,
    ensures
        EntryReadView::start(offset, size).run(file) == entry_in(file, offset, size),
{
    reveal_with_fuel(EntryReadView::run, 4);
}

/// A reading never asks for bytes outside the entry, whatever the entry's header says.
pub proof fn law_requests_stay_in_the_entry(read: EntryReadView)
    requires
        read.wf(),
    ensures
        match read {
            EntryReadView::Header { offset, size } => {
                &&& read.request()->0.offset == offset
                &&& read.request()->0.end() <= offset + size
            },
            EntryReadView::Key { offset, size, .. } => {
                &&& read.request()->0.offset == offset + HEADER_SIZE
                &&& read.request()->0.end() <= offset + size
            },
            EntryReadView::Value { offset, size, key, .. } => {
                &&& read.request()->0.offset == offset + HEADER_SIZE + key.len()
                &&& read.request()->0.end() <= offset + size
            },
            EntryReadView::Done { .. } => read.request() is None,
        },
{
}

/// An entry that is read without an error has the checksums that are stored with it, and its key
/// and value are the bytes of the file behind the header.
pub proof fn law_read_entry_is_checked(file: Seq<u8>, offset: u64, size: u32, entry: VlogEntryView)
    requires
        entry_in(file, offset, size) == Some(Ok::<_, StorageError>(entry)),
    ensures
        header_in(file, offset as int).crc_with_key(entry.key) == header_in(
            file,
            offset as int,
        ).header_crc32,
        crc32(entry.value) == header_in(file, offset as int).value_crc32,
        entry.key == key_in(file, offset as int),
        entry.value == value_in(file, offset as int),
        HEADER_SIZE + entry.key.len() + entry.value.len() <= size,
        offset + HEADER_SIZE + entry.key.len() + entry.value.len() <= file.len(),
{
}

/// Two entries that are read without an error and carry the same stored checksum have equal
/// checksums: of what the header checksum covers with the key, and of the value. So a change that
/// leaves the stored checksums as they are is accepted only if it does not change the checksums.
pub proof fn law_accepted_entries_agree_in_checksums(
    file: Seq<u8>,
    offset: u64,
    size: u32,
    entry: VlogEntryView,
    other_file: Seq<u8>,
    other_offset: u64,
    other_size: u32,
    other: VlogEntryView,
)
    requires
        entry_in(file, offset, size) == Some(Ok::<_, StorageError>(entry)),
        entry_in(other_file, other_offset, other_size) == Some(Ok::<_, StorageError>(other)),
    ensures
        ({
            let header = header_in(file, offset as int);
            let other_header = header_in(other_file, other_offset as int);
            &&& header.header_crc32 == other_header.header_crc32 ==> crc32(
                header.covered() + entry.key,
            ) == crc32(other_header.covered() + other.key)
            &&& header.value_crc32 == other_header.value_crc32 ==> crc32(entry.value) == crc32(
                other.value,
            )
        }),
{
}

/// An entry is refused if what the header checksum covers with the key, or the value, does not have
/// the checksum it had when the entry was accepted while the stored checksums stayed as they were.
pub proof fn law_change_of_checksum_is_refused(
    file: Seq<u8>,
    changed: Seq<u8>,
    offset: u64,
    size: u32,
    entry: VlogEntryView,
)
    requires
        entry_in(file, offset, size) == Some(Ok::<_, StorageError>(entry)),
        ({
            let header = header_in(file, offset as int);
            let new_header = header_in(changed, offset as int);
            ||| {
                &&& new_header.header_crc32 == header.header_crc32
                &&& new_header.crc_with_key(key_in(changed, offset as int)) != header.crc_with_key(
                    entry.key,
                )
            }
            ||| {
                &&& new_header.value_crc32 == header.value_crc32
                &&& crc32(value_in(changed, offset as int)) != crc32(entry.value)
            }
        }),
    ensures
        !(entry_in(changed, offset, size) matches Some(Ok(_))),
{
}

/// An accepted entry is refused after any change that is confined to the checksums stored with it.
pub proof fn law_changed_checksum_is_refused(
    file: Seq<u8>,
    changed: Seq<u8>,
    offset: u64,
    size: u32,
    entry: VlogEntryView,
)
    requires
        entry_in(file, offset, size) == Some(Ok::<_, StorageError>(entry)),
        changed.len() == file.len(),
        changed.subrange(offset as int, offset + 8) != file.subrange(offset as int, offset + 8),
        changed.skip(offset + 8) == file.skip(offset + 8),
    ensures
        entry_in(changed, offset, size) matches Some(Err(_)),
{
    let start = offset as int;
    let header = header_in(file, start);
    let new_header = header_in(changed, start);
    let old_bytes = file.subrange(start, start + HEADER_SIZE);
    let new_bytes = changed.subrange(start, start + HEADER_SIZE);
    let rest = file.skip(start + 8);
    assert forall|i: int| start + 8 <= i < file.len() implies changed[i] == file[i] by {
        assert(rest[i - (start + 8)] == changed.skip(start + 8)[i - (start + 8)]);
    }
    assert(new_bytes.skip(8) == old_bytes.skip(8));
    assert(new_bytes.skip(12) == old_bytes.skip(12));
    assert(new_bytes.skip(14) == old_bytes.skip(14));
    assert(new_bytes.subrange(16, 24) == old_bytes.subrange(16, 24));
    assert(key_in(changed, start) == key_in(file, start));
    assert(value_in(changed, start) == value_in(file, start));
    if new_header.value_crc32 == header.value_crc32 {
        assert(new_header.covered() == header.covered());
        if new_header.header_crc32 == header.header_crc32 {
            law_le_u32_is_its_bytes(old_bytes, new_bytes);
            law_le_u32_is_its_bytes(old_bytes.skip(4), new_bytes.skip(4));
            assert forall|i: int| 0 <= i < 8 implies #[trigger] old_bytes[i] == new_bytes[i] by {
                if i >= 4 {
                    assert(old_bytes.skip(4)[i - 4] == new_bytes.skip(4)[i - 4]);
                }
            }
            assert(new_bytes.take(8) == old_bytes.take(8));
            assert(changed.subrange(start, start + 8) == new_bytes.take(8));
            assert(file.subrange(start, start + 8) == old_bytes.take(8));
        }
    }
}

/// Whether two byte sequences differ at `i` and nowhere else.
pub open spec fn differ_only_at(a: Seq<u8>, b: Seq<u8>, i: int) -> bool {
    &&& a.len() == b.len()
    &&& 0 <= i < a.len()
    &&& a[i] != b[i]
    &&& forall|j: int| 0 <= j < a.len() && j != i ==> #[trigger] a[j] == b[j]
}

/// Whether byte `i` of a file is one of the two that hold the key's length of the entry at
/// `offset`, and with it how far the header checksum reaches.
pub open spec fn in_key_len(offset: int, i: int) -> bool {
    offset + 12 <= i < offset + 14
}

/// Whether byte `i` of a file is one of the four that hold the value's length of the entry at
/// `offset`.
pub open spec fn in_value_len(offset: int, i: int) -> bool {
    offset + 8 <= i < offset + 12
}

/// The header checksum is that of the bytes from behind the stored checksum to the end of the key.
proof fn lemma_header_crc_in(file: Seq<u8>, offset: int)
    requires
        0 <= offset,
        offset + HEADER_SIZE + header_in(file, offset).key_len <= file.len(),
    ensures
        header_in(file, offset).crc_with_key(key_in(file, offset)) == crc32(
            file.subrange(offset + 4, offset + HEADER_SIZE + header_in(file, offset).key_len),
        ),
{
    let bytes = file.subrange(offset, offset + HEADER_SIZE);
    let header = header_in(file, offset);
    law_entry_header_write_back(bytes);
    assert(header.covered() + key_in(file, offset) == file.subrange(
        offset + 4,
        offset + HEADER_SIZE + header.key_len,
    ));
}

/// Where two files do not differ, the integers in them do not.
proof fn lemma_header_fields_stay(file: Seq<u8>, changed: Seq<u8>, offset: int, i: int)
    requires
        differ_only_at(file, changed, i),
        0 <= offset,
        offset + HEADER_SIZE <= file.len(),
    ensures
        ({
            let header = header_in(file, offset);
            let new_header = header_in(changed, offset);
            &&& !(offset <= i < offset + 4) ==> new_header.header_crc32 == header.header_crc32
            &&& !(offset + 4 <= i < offset + 8) ==> new_header.value_crc32 == header.value_crc32
            &&& !in_value_len(offset, i) ==> new_header.value_len == header.value_len
            &&& !in_key_len(offset, i) ==> new_header.key_len == header.key_len
        }),
{
    let a = file.subrange(offset, offset + HEADER_SIZE);
    let b = changed.subrange(offset, offset + HEADER_SIZE);
    assert forall|j: int| 0 <= j < HEADER_SIZE && offset + j != i implies #[trigger] a[j]
        == b[j] by {
        assert(file[offset + j] == changed[offset + j]);
    }
    assert forall|k: int, j: int|
        0 <= k <= k + j < HEADER_SIZE && offset + k + j != i && 0 <= j implies #[trigger] a.skip(
        k,
    )[j] == b.skip(k)[j] by {
        assert(a[k + j] == b[k + j]);
    }
}

/// Changing one byte that the header checksum covers changes the checksum.
proof fn lemma_header_crc_changes(file: Seq<u8>, changed: Seq<u8>, offset: int, i: int)
    requires
        differ_only_at(file, changed, i),
        0 <= offset,
        offset + HEADER_SIZE + header_in(file, offset).key_len <= file.len(),
        offset + 4 <= i < offset + HEADER_SIZE + header_in(file, offset).key_len,
        !in_key_len(offset, i),
    ensures
        header_in(changed, offset).crc_with_key(key_in(changed, offset)) != header_in(
            file,
            offset,
        ).crc_with_key(key_in(file, offset)),
{
    lemma_header_fields_stay(file, changed, offset, i);
    lemma_header_crc_in(file, offset);
    lemma_header_crc_in(changed, offset);
    let start = offset + 4;
    let end = offset + HEADER_SIZE + header_in(file, offset).key_len;
    let a = file.subrange(start, end);
    let b = changed.subrange(start, end);
    assert forall|j: int| 0 <= j < a.len() && j != i - start implies a[j] == b[j] by {
        assert(file[start + j] == changed[start + j]);
    }
    law_changed_byte_changes_the_checksum(a, b, i - start);
}

/// Changing one byte of the value changes its checksum.
proof fn lemma_value_crc_changes(file: Seq<u8>, changed: Seq<u8>, offset: int, i: int)
    requires
        differ_only_at(file, changed, i),
        0 <= offset,
        ({
            let header = header_in(file, offset);
            let start = offset + HEADER_SIZE + header.key_len;
            start <= i < start + header.value_len <= file.len()
        }),
    ensures
        crc32(value_in(changed, offset)) != crc32(value_in(file, offset)),
{
    lemma_header_fields_stay(file, changed, offset, i);
    let start = offset + HEADER_SIZE + header_in(file, offset).key_len;
    let a = value_in(file, offset);
    let b = value_in(changed, offset);
    assert forall|j: int| 0 <= j < a.len() && j != i - start implies a[j] == b[j] by {
        assert(file[start + j] == changed[start + j]);
    }
    law_changed_byte_changes_the_checksum(a, b, i - start);
}

/// An accepted entry is refused after a change of any one byte of its header, its key or its value,
/// the two bytes apart that hold the key's length. It is refused with an error of the library,
/// except that after a change of the value's length the file may instead be too short to be read.
pub proof fn law_changed_byte_is_refused(
    file: Seq<u8>,
    changed: Seq<u8>,
    offset: u64,
    size: u32,
    entry: VlogEntryView,
    i: int,
)
    requires
        file.len() <= u64::MAX,
        EntryReadView::start(offset, size).run(file) == Some(Ok::<_, StorageError>(entry)),
        differ_only_at(file, changed, i),
        offset <= i < offset + HEADER_SIZE + entry.key.len() + entry.value.len(),
        !in_key_len(offset as int, i),
    ensures
        !(EntryReadView::start(offset, size).run(changed) matches Some(Ok(_))),
        !in_value_len(offset as int, i) ==> (EntryReadView::start(offset, size).run(
            changed,
        ) matches Some(Err(_))),
{
    let start = offset as int;
    law_read_entry(file, offset, size);
    law_read_entry(changed, offset, size);
    law_read_entry_is_checked(file, offset, size, entry);
    lemma_header_fields_stay(file, changed, start, i);
    if i < offset + 8 {
        assert(changed.skip(offset + 8) == file.skip(offset + 8)) by {
            assert forall|j: int| 0 <= j < file.len() - (offset + 8) implies changed.skip(
                offset + 8,
            )[j] == #[trigger] file.skip(offset + 8)[j] by {
                assert(file[offset + 8 + j] == changed[offset + 8 + j]);
            }
        }
        assert(changed.subrange(start, start + 8)[i - start] != file.subrange(start, start + 8)[i
            - start]);
        law_changed_checksum_is_refused(file, changed, offset, size, entry);
    } else if i < offset + HEADER_SIZE + entry.key.len() {
        lemma_header_crc_changes(file, changed, start, i);
        law_change_of_checksum_is_refused(file, changed, offset, size, entry);
    } else {
        lemma_value_crc_changes(file, changed, start, i);
        law_change_of_checksum_is_refused(file, changed, offset, size, entry);
    }
}

/// What is written to a value log as one entry.
pub struct LogRecord {
    pub key: Seq<u8>,
    pub value: Seq<u8>,
    pub flags: u16,
    pub padding: Seq<u8>,
}

impl LogRecord {
    /// Whether the lengths fit into a header and the size into a value pointer.
    pub open spec fn wf(self) -> bool {
        &&& self.key.len() <= u16::MAX
        &&& self.value.len() <= u32::MAX
        &&& self.padding.len() == 8
        &&& self.size() <= u32::MAX
    }

    /// The size of the entry.
    pub open spec fn size(self) -> int {
        entry_size(self.key.len() as int, self.value.len() as int)
    }

    /// The header of the entry, with both checksums.
    pub open spec fn header(self) -> EntryHeaderView {
        let unsealed = EntryHeaderView {
            header_crc32: 0,
            value_crc32: crc32(self.value),
            value_len: self.value.len() as u32,
            key_len: self.key.len() as u16,
            flags: self.flags,
            padding: self.padding,
        };
        EntryHeaderView { header_crc32: unsealed.crc_with_key(self.key), ..unsealed }
    }

    /// The entry as it lies in a file, up to the bytes that only fill it up to its size.
    pub open spec fn stored(self) -> Seq<u8> {
        self.header().encoded() + self.key + self.value
    }

    /// Whether the entry lies in `file` at `offset`.
    pub open spec fn lies_in(self, file: Seq<u8>, offset: int) -> bool {
        &&& 0 <= offset
        &&& offset + self.size() <= file.len()
        &&& self.stored() == file.subrange(offset, offset + self.stored().len())
    }

    /// What a walk over the headers tells of the entry.
    pub open spec fn meta(self, file_id: u32, offset: int) -> VlogEntryMetaView {
        VlogEntryMetaView {
            ptr: ValuePointer { file_id, offset: offset as u64, size: self.size() as u32 },
            key: self.key,
            value_len: self.value.len() as u32,
            entry_size: self.size() as usize,
        }
    }
}

/// Where an entry lies, its header, key and value are found.
proof fn lemma_record_parts(record: LogRecord, file: Seq<u8>, offset: int)
    requires
        record.wf(),
        record.lies_in(file, offset),
    ensures
        header_in(file, offset) == record.header(),
        key_in(file, offset) == record.key,
        value_in(file, offset) == record.value,
        record.header().crc_with_key(record.key) == record.header().header_crc32,
        record.stored().len() == HEADER_SIZE + record.key.len() + record.value.len(),
        record.stored().len() <= record.size(),
{
    let header = record.header();
    let stored = record.stored();
    law_entry_header_read_back(header, Seq::empty());
    law_entry_size(record.key.len(), record.value.len());
    assert(header.encoded() + Seq::empty() == header.encoded());
    assert(stored.take(HEADER_SIZE as int) == header.encoded());
    assert(file.subrange(offset, offset + HEADER_SIZE) == stored.take(HEADER_SIZE as int));
    assert(key_in(file, offset) == record.key) by {
        assert(stored.subrange(HEADER_SIZE as int, HEADER_SIZE + record.key.len()) == record.key);
        assert(key_in(file, offset) == stored.subrange(
            HEADER_SIZE as int,
            HEADER_SIZE + record.key.len(),
        ));
    }
    assert(value_in(file, offset) == record.value) by {
        assert(stored.skip(HEADER_SIZE + record.key.len()) == record.value);
        assert(value_in(file, offset) == stored.skip(HEADER_SIZE + record.key.len()));
    }
}

/// Reading an entry gives back the key and the value that were written, whether its size is said
/// to be with or without the filling bytes.
pub proof fn law_read_entry_gives_back(record: LogRecord, file: Seq<u8>, offset: u64, size: u32)
    requires
        file.len() <= u64::MAX,
        record.wf(),
        record.lies_in(file, offset as int),
        HEADER_SIZE + record.key.len() + record.value.len() <= size,
    ensures
        EntryReadView::start(offset, size).run(file) == Some(
            Ok::<_, StorageError>(
                VlogEntryView {
                    ptr: ValuePointer { file_id: 0, offset, size },
                    key: record.key,
                    value: record.value,
                    size: size as usize,
                },
            ),
        ),
{
    lemma_record_parts(record, file, offset as int);
    law_read_entry(file, offset, size);
}

impl HeaderIteratorView {
    /// What the next step yields when its requests are answered from `file`: an entry or what is
    /// wrong with it, or `None` where the file ends too early.
    pub open spec fn item(self, file: Seq<u8>) -> Option<Result<VlogEntryMetaView, StorageError>> {
        let request = self.request()->0;
        if request.end() > file.len() {
            None
        } else {
            match self.header_outcome(request.answer(file)) {
                Err(e) => Some(Err(e)),
                Ok(pending) => {
                    if pending.request().end() > file.len() {
                        None
                    } else {
                        Some(self.key_outcome(pending, pending.request().answer(file)))
                    }
                },
            }
        }
    }

    /// The walk after the next step.
    pub open spec fn stepped(self, file: Seq<u8>) -> HeaderIteratorView {
        match self.item(file) {
            Some(Ok(meta)) => self.moved(meta.entry_size as int),
            _ => self.ended(),
        }
    }

    /// What the walk yields in all.
    pub open spec fn items(self, file: Seq<u8>) -> Seq<
        Option<Result<VlogEntryMetaView, StorageError>>,
    >
        decreases self.file_size - self.offset,
    {
        if self.request() is None {
            Seq::empty()
        } else {
            seq![self.item(file)] + self.stepped(file).items(file)
        }
    }
}

/// Every step moves the walk forward and leaves it within the file, and a step that yields no
/// entry is the last one.
pub proof fn law_walk_moves_forward(it: HeaderIteratorView, file: Seq<u8>)
    requires
        it.request() is Some,
    ensures
        it.offset < it.stepped(file).offset <= it.file_size,
        it.stepped(file).file_size == it.file_size,
        it.stepped(file).file_id == it.file_id,
        !(it.item(file) matches Some(Ok(_))) ==> it.stepped(file).request() is None,
        it.item(file) matches Some(Ok(meta)) ==> {
            &&& meta.ptr.file_id == it.file_id
            &&& meta.ptr.offset == it.offset
            &&& meta.ptr.offset + meta.ptr.size == it.stepped(file).offset
        },
{
}

/// A key that a walk asks for lies within the file, so that the walk fails to read only where the
/// file is shorter than it was said to be or ends within a header.
pub proof fn law_walk_stays_in_the_file(it: HeaderIteratorView, pending: PendingEntryView)
    requires
        it.awaits(pending),
    ensures
        it.offset < pending.request().offset,
        pending.request().end() <= it.offset + pending.entry_size <= it.file_size,
{
    law_entry_size(pending.header.key_len as nat, pending.header.value_len as nat);
}

/// Entries that a walk yields start and end at multiples of the alignment if the walk starts at
/// one.
pub proof fn law_walk_is_aligned(it: HeaderIteratorView, file: Seq<u8>, meta: VlogEntryMetaView)
    requires
        it.request() is Some,
        it.offset as int % ALIGNMENT as int == 0,
        it.item(file) == Some(Ok::<_, StorageError>(meta)),
    ensures
        meta.ptr.offset as int % ALIGNMENT as int == 0,
        meta.ptr.size as int % ALIGNMENT as int == 0,
        it.stepped(file).offset as int % ALIGNMENT as int == 0,
{
    let header = EntryHeaderView::decoded(it.request()->0.answer(file));
    let offset = it.offset as int;
    let size = meta.ptr.size as int;
    assert(size % ALIGNMENT as int == 0) by {
        let key_len = header.key_len as nat;
        let value_len = header.value_len as nat;
        assert(size == entry_size(key_len as int, value_len as int));
        law_entry_size(key_len, value_len);
    }
    assert((offset + size) % ALIGNMENT as int == 0) by (nonlinear_arith)
        requires
            offset % ALIGNMENT as int == 0,
            size % ALIGNMENT as int == 0,
    ;
    law_walk_moves_forward(it, file);
}

/// The pointer that a walk gives to an entry is one that the entry can be read by: the reading
/// gives back the same key and a value of the announced length, unless the value does not have
/// the checksum stored with it.
pub proof fn law_walk_pointers_can_be_read(
    it: HeaderIteratorView,
    file: Seq<u8>,
    meta: VlogEntryMetaView,
)
    requires
        file.len() == it.file_size,
        it.request() is Some,
        it.item(file) == Some(Ok::<_, StorageError>(meta)),
    ensures
        meta.value_len == value_in(file, meta.ptr.offset as int).len(),
        EntryReadView::start(meta.ptr.offset, meta.ptr.size).run(file) == Some(
            match value_corruption(
                header_in(file, meta.ptr.offset as int),
                crc32(value_in(file, meta.ptr.offset as int)),
                meta.ptr.offset,
            ) {
                Some(e) => Err(e),
                None => Ok(
                    VlogEntryView {
                        ptr: ValuePointer { file_id: 0, ..meta.ptr },
                        key: meta.key,
                        value: value_in(file, meta.ptr.offset as int),
                        size: meta.ptr.size as usize,
                    },
                ),
            },
        ),
{
    law_read_entry(file, meta.ptr.offset, meta.ptr.size);
    let header = header_in(file, it.offset as int);
    law_entry_size(header.key_len as nat, header.value_len as nat);
}

/// A walk does not yield an entry after a change of any one byte of its header or its key, the two
/// bytes apart that hold the key's length.
pub proof fn law_walk_refuses_a_changed_byte(
    it: HeaderIteratorView,
    file: Seq<u8>,
    changed: Seq<u8>,
    meta: VlogEntryMetaView,
    i: int,
)
    requires
        it.request() is Some,
        it.item(file) == Some(Ok::<_, StorageError>(meta)),
        differ_only_at(file, changed, i),
        it.offset <= i < it.offset + HEADER_SIZE + meta.key.len(),
        !in_key_len(it.offset as int, i),
    ensures
        !(it.item(changed) matches Some(Ok(_))),
{
    let offset = it.offset as int;
    lemma_header_fields_stay(file, changed, offset, i);
    assert(meta.key == key_in(file, offset));
    if i < offset + 4 {
        let end = offset + HEADER_SIZE + meta.key.len();
        lemma_header_crc_in(file, offset);
        lemma_header_crc_in(changed, offset);
        assert(changed.subrange(offset + 4, end) == file.subrange(offset + 4, end)) by {
            assert forall|j: int| 0 <= j < end - (offset + 4) implies changed.subrange(
                offset + 4,
                end,
            )[j] == #[trigger] file.subrange(offset + 4, end)[j] by {
                assert(file[offset + 4 + j] == changed[offset + 4 + j]);
            }
        }
        let a = file.subrange(offset, offset + HEADER_SIZE);
        let b = changed.subrange(offset, offset + HEADER_SIZE);
        assert(a[i - offset] != b[i - offset]);
        if le_u32(a) == le_u32(b) {
            law_le_u32_is_its_bytes(a, b);
        }
    } else {
        lemma_header_crc_changes(file, changed, offset, i);
    }
}

/// An entry as it lies in a file has its parts where the header says.
proof fn lemma_image_parts(record: LogRecord, file: Seq<u8>, offset: int)
    requires
        record.key.len() <= u16::MAX,
        record.value.len() <= u32::MAX,
        record.padding.len() == 8,
        0 <= offset,
        offset + 24 + record.key.len() + record.value.len() <= file.len(),
        ({
            let covered = le_u32_bytes(crc32(record.value)) + le_u32_bytes(
                record.value.len() as u32,
            ) + le_u16_bytes(record.key.len() as u16) + le_u16_bytes(record.flags)
                + record.padding;
            file.subrange(offset, offset + 24 + record.key.len() + record.value.len())
                == le_u32_bytes(crc32(covered + record.key)) + covered + record.key + record.value
        }),
    ensures
        header_in(file, offset) == record.header(),
        key_in(file, offset) == record.key,
        value_in(file, offset) == record.value,
        record.header().crc_with_key(record.key) == record.header().header_crc32,
{
    let header = record.header();
    let len = 24 + record.key.len() + record.value.len();
    let image = file.subrange(offset, offset + len);
    law_entry_header_read_back(header, Seq::empty());
    assert(header.encoded() + Seq::empty() == header.encoded());
    assert(image == header.encoded() + record.key + record.value);
    assert(image.take(24) == header.encoded());
    assert(file.subrange(offset, offset + HEADER_SIZE) == image.take(24));
    assert(key_in(file, offset) == image.subrange(24, 24 + record.key.len() as int));
    assert(image.subrange(24, 24 + record.key.len() as int) == record.key);
    assert(value_in(file, offset) == image.skip(24 + record.key.len() as int));
    assert(image.skip(24 + record.key.len() as int) == record.value);
}

/// Reading an entry that was written field by field asks for its header, its key and its value, and
/// gives the key and the value back. An entry is written as the checksum of what follows it up to
/// the end of the key, the checksum of the value, the lengths of the value and of the key, the
/// flags, the padding, the key and the value.
pub proof fn law_written_entry_is_read_back(
    file: Seq<u8>,
    offset: u64,
    size: u32,
    key: Seq<u8>,
    value: Seq<u8>,
    flags: u16,
    padding: Seq<u8>,
)
    requires
        key.len() <= u16::MAX,
        value.len() <= u32::MAX,
        padding.len() == 8,
        24 + key.len() + value.len() <= size,
        offset + 24 + key.len() + value.len() <= file.len() <= u64::MAX,
        ({
            let covered = le_u32_bytes(crc32(value)) + le_u32_bytes(value.len() as u32)
                + le_u16_bytes(key.len() as u16) + le_u16_bytes(flags) + padding;
            file.subrange(offset as int, offset + 24 + key.len() + value.len()) == le_u32_bytes(
                crc32(covered + key),
            ) + covered + key + value
        }),
    ensures
        ({
            let read = EntryReadView::start(offset, size);
            let with_header = read.resumed(file.subrange(offset as int, offset + 24));
            let with_key = with_header.resumed(key);
            let with_value = with_key.resumed(value);
            let entry = VlogEntryView {
                ptr: ValuePointer { file_id: 0, offset, size },
                key,
                value,
                size: size as usize,
            };
            &&& read.request() == Some(ReadRequest { offset, len: 24 })
            &&& with_header.request() == Some(
                ReadRequest { offset: (offset + 24) as u64, len: key.len() as usize },
            )
            &&& with_key.request() == Some(
                ReadRequest {
                    offset: (offset + 24 + key.len()) as u64,
                    len: value.len() as usize,
                },
            )
            &&& with_value == (EntryReadView::Done { outcome: Ok(entry) })
            &&& read.run(file) == Some(Ok::<_, StorageError>(entry))
        }),
{
    let record = LogRecord { key, value, flags, padding };
    lemma_image_parts(record, file, offset as int);
    law_read_entry(file, offset, size);
}

/// A walk yields an entry whose parts are where the header says.
proof fn lemma_parts_are_walked(
    it: HeaderIteratorView,
    file: Seq<u8>,
    size: u32,
    record: LogRecord,
)
    requires
        record.key.len() <= u16::MAX,
        record.value.len() <= u32::MAX,
        size % 8 == 0,
        24 + record.key.len() + record.value.len() <= size < 24 + record.key.len()
            + record.value.len() + 8,
        it.offset + size <= it.file_size <= file.len(),
        header_in(file, it.offset as int) == record.header(),
        key_in(file, it.offset as int) == record.key,
        record.header().crc_with_key(record.key) == record.header().header_crc32,
    ensures
        ({
            let bytes = file.subrange(it.offset as int, it.offset + 24);
            let pending = PendingEntryView {
                header: record.header(),
                key_offset: (it.offset + 24) as u64,
                entry_size: size,
            };
            let meta = VlogEntryMetaView {
                ptr: ValuePointer { file_id: it.file_id, offset: it.offset, size },
                key: record.key,
                value_len: record.value.len() as u32,
                entry_size: size as usize,
            };
            &&& it.request() == Some(ReadRequest { offset: it.offset, len: 24 })
            &&& it.header_outcome(bytes) == Ok::<_, StorageError>(pending)
            &&& it.key_outcome(pending, record.key) == Ok::<_, StorageError>(meta)
            &&& it.item(file) == Some(Ok::<_, StorageError>(meta))
            &&& it.stepped(file) == it.moved(size as int)
        }),
{
    let key_len = record.key.len();
    let value_len = record.value.len();
    law_entry_size_is_the_next_multiple_of_eight(key_len, value_len);
    assert(entry_size(key_len as int, value_len as int) == size);
    let bytes = file.subrange(it.offset as int, it.offset + 24);
    let pending = it.header_outcome(bytes)->Ok_0;
    assert(it.header_outcome(bytes) is Ok);
    assert(pending.request().answer(file) == record.key);
}

/// A walk that stands at an entry that was written field by field asks for its header and its key,
/// yields its pointer, its key and the length of its value, and moves on by the entry's size, which
/// is the next multiple of eight.
pub proof fn law_written_entry_is_walked(
    it: HeaderIteratorView,
    file: Seq<u8>,
    size: u32,
    key: Seq<u8>,
    value: Seq<u8>,
    flags: u16,
    padding: Seq<u8>,
)
    requires
        key.len() <= u16::MAX,
        value.len() <= u32::MAX,
        padding.len() == 8,
        size % 8 == 0,
        24 + key.len() + value.len() <= size < 24 + key.len() + value.len() + 8,
        it.offset + size <= it.file_size <= file.len(),
        ({
            let covered = le_u32_bytes(crc32(value)) + le_u32_bytes(value.len() as u32)
                + le_u16_bytes(key.len() as u16) + le_u16_bytes(flags) + padding;
            file.subrange(it.offset as int, it.offset + 24 + key.len() + value.len())
                == le_u32_bytes(crc32(covered + key)) + covered + key + value
        }),
    ensures
        ({
            let meta = VlogEntryMetaView {
                ptr: ValuePointer { file_id: it.file_id, offset: it.offset, size },
                key,
                value_len: value.len() as u32,
                entry_size: size as usize,
            };
            &&& it.request() == Some(ReadRequest { offset: it.offset, len: 24 })
            &&& it.header_outcome(file.subrange(it.offset as int, it.offset + 24)) matches Ok(
                pending,
            ) && {
                &&& pending.request() == (ReadRequest {
                    offset: (it.offset + 24) as u64,
                    len: key.len() as usize,
                })
                &&& it.key_outcome(pending, key) == Ok::<_, StorageError>(meta)
            }
            &&& it.moved(size as int) == (HeaderIteratorView {
                offset: (it.offset + size) as u64,
                file_size: it.file_size,
                file_id: it.file_id,
            })
            &&& it.item(file) == Some(Ok::<_, StorageError>(meta))
            &&& it.stepped(file) == it.moved(size as int)
        }),
{
    let record = LogRecord { key, value, flags, padding };
    lemma_image_parts(record, file, it.offset as int);
    lemma_parts_are_walked(it, file, size, record);
}

/// A walk over entries that were written field by field, each from where the one before it ends,
/// yields each of them in turn and nothing else. Entry `i` lies from `starts[i]` to
/// `starts[i + 1]`.
pub proof fn law_walk_yields_written_entries(
    it: HeaderIteratorView,
    file: Seq<u8>,
    records: Seq<LogRecord>,
    starts: Seq<u64>,
)
    requires
        starts.len() == records.len() + 1,
        starts[0] == it.offset,
        starts.last() == it.file_size,
        it.file_size == file.len(),
        forall|i: int|
            #![trigger records[i]]
            0 <= i < records.len() ==> {
                let key = records[i].key;
                let value = records[i].value;
                let covered = le_u32_bytes(crc32(value)) + le_u32_bytes(value.len() as u32)
                    + le_u16_bytes(key.len() as u16) + le_u16_bytes(records[i].flags)
                    + records[i].padding;
                let size = starts[i + 1] - starts[i];
                &&& key.len() <= u16::MAX
                &&& value.len() <= u32::MAX
                &&& records[i].padding.len() == 8
                &&& size % 8 == 0
                &&& 24 + key.len() + value.len() <= size < 24 + key.len() + value.len() + 8
                &&& size <= u32::MAX
                &&& file.subrange(starts[i] as int, starts[i] + 24 + key.len() + value.len())
                    == le_u32_bytes(crc32(covered + key)) + covered + key + value
            },
    ensures
        it.items(file).len() == records.len(),
        forall|i: int|
            #![trigger it.items(file)[i]]
            0 <= i < records.len() ==> it.items(file)[i] == Some(
                Ok::<_, StorageError>(
                    VlogEntryMetaView {
                        ptr: ValuePointer {
                            file_id: it.file_id,
                            offset: starts[i],
                            size: (starts[i + 1] - starts[i]) as u32,
                        },
                        key: records[i].key,
                        value_len: records[i].value.len() as u32,
                        entry_size: (starts[i + 1] - starts[i]) as usize,
                    },
                ),
            ),
    decreases records.len(),
{
    if records.len() > 0 {
        let first = records[0];
        let size = (starts[1] - starts[0]) as u32;
        assert(records[0].padding.len() == 8);
        assert forall|j: int| 0 <= j < starts.len() - 1 implies #[trigger] starts[j] <= starts[j
            + 1] by {
            assert(records[j].padding.len() == 8);
        }
        lemma_starts_increase(starts, 1);
        law_written_entry_is_walked(
            it,
            file,
            size,
            first.key,
            first.value,
            first.flags,
            first.padding,
        );
        let rest = records.drop_first();
        let rest_starts = starts.drop_first();
        assert forall|i: int| 0 <= i < rest.len() implies #[trigger] rest[i] == records[i + 1]
            && rest_starts[i] == starts[i + 1] && rest_starts[i + 1] == starts[i + 2] by {}
        law_walk_yields_written_entries(it.stepped(file), file, rest, rest_starts);
        assert forall|i: int|
            #![trigger it.items(file)[i]]
            0 < i < records.len() implies it.items(file)[i] == it.stepped(file).items(file)[i - 1]
            && rest_starts[i - 1] == starts[i] && rest_starts[i] == starts[i + 1] && rest[i - 1]
            == records[i] by {}
    }
}

/// Where no start lies behind the next one, none lies behind the last one.
proof fn lemma_starts_increase(starts: Seq<u64>, i: int)
    requires
        0 <= i < starts.len(),
        forall|j: int| 0 <= j < starts.len() - 1 ==> #[trigger] starts[j] <= starts[j + 1],
    ensures
        starts[i] <= starts.last(),
    decreases starts.len() - i,
{
    if i < starts.len() - 1 {
        lemma_starts_increase(starts, i + 1);
    }
}

/// Which entries a walk waits for the key of.
pub proof fn law_walk_awaits_the_next_entry(it: HeaderIteratorView, pending: PendingEntryView)
    ensures
        it.awaits(pending) <==> {
            &&& pending.key_offset == it.offset + 24
            &&& pending.entry_size % 8 == 0
            &&& 24 + pending.header.key_len + pending.header.value_len <= pending.entry_size < 24
                + pending.header.key_len + pending.header.value_len + 8
            &&& it.offset + pending.entry_size <= it.file_size
        },
{
    law_entry_size_is_the_next_multiple_of_eight(
        pending.header.key_len as nat,
        pending.header.value_len as nat,
    );
}

/// Whether `file` holds these entries and nothing else from `offset` on.
pub open spec fn log_lies_in(records: Seq<LogRecord>, file: Seq<u8>, offset: int) -> bool
    decreases records.len(),
{
    if records.len() == 0 {
        offset == file.len()
    } else {
        &&& records[0].wf()
        &&& records[0].lies_in(file, offset)
        &&& log_lies_in(records.drop_first(), file, offset + records[0].size())
    }
}

/// What a walk over these entries tells, if the first one lies at `offset`.
pub open spec fn log_metas(records: Seq<LogRecord>, file_id: u32, offset: int) -> Seq<
    Option<Result<VlogEntryMetaView, StorageError>>,
>
    decreases records.len(),
{
    if records.len() == 0 {
        Seq::empty()
    } else {
        seq![Some(Ok(records[0].meta(file_id, offset)))] + log_metas(
            records.drop_first(),
            file_id,
            offset + records[0].size(),
        )
    }
}

/// A walk yields the entry that lies where it is, and moves behind it.
proof fn lemma_whole_entry_is_yielded(it: HeaderIteratorView, record: LogRecord, file: Seq<u8>)
    requires
        file.len() == it.file_size,
        record.wf(),
        record.lies_in(file, it.offset as int),
    ensures
        it.request() is Some,
        it.item(file) == Some(Ok::<_, StorageError>(record.meta(it.file_id, it.offset as int))),
        it.stepped(file) == it.moved(record.size()),
        it.stepped(file).offset == it.offset + record.size(),
{
    lemma_record_parts(record, file, it.offset as int);
    law_entry_size(record.key.len(), record.value.len());
}

/// A walk over a file of entries yields each of them, in order, and nothing else.
pub proof fn law_walk_yields_the_log(it: HeaderIteratorView, records: Seq<LogRecord>, file: Seq<u8>)
    requires
        file.len() == it.file_size,
        log_lies_in(records, file, it.offset as int),
    ensures
        it.items(file) == log_metas(records, it.file_id, it.offset as int),
    decreases records.len(),
{
    if records.len() > 0 {
        lemma_whole_entry_is_yielded(it, records[0], file);
        law_walk_yields_the_log(it.stepped(file), records.drop_first(), file);
    }
}

/// How many of these entries end no later than `end`, if the first one lies at `offset`.
pub open spec fn whole_records(records: Seq<LogRecord>, offset: int, end: int) -> nat
    decreases records.len(),
{
    if records.len() == 0 || end < offset + records[0].size() {
        0
    } else {
        1 + whole_records(records.drop_first(), offset + records[0].size(), end)
    }
}

/// Where these entries end, if the first one lies at `offset`.
pub open spec fn log_end(records: Seq<LogRecord>, offset: int) -> int
    decreases records.len(),
{
    if records.len() == 0 {
        offset
    } else {
        log_end(records.drop_first(), offset + records[0].size())
    }
}

/// What a walk yields for an entry of which only the first `left` bytes are in the file. That is
/// never an entry: the header cannot be read, or it says that the entry goes on past the end.
pub open spec fn torn_items(left: int) -> Seq<Option<Result<VlogEntryMetaView, StorageError>>> {
    if left <= 0 {
        Seq::empty()
    } else if left < HEADER_SIZE {
        seq![None]
    } else {
        seq![Some(Err(StorageError::PastEndOfFile))]
    }
}

/// A file that was cut off after `it.file_size` bytes yields the entries that are still whole, in
/// order, and then no entry.
pub proof fn law_cut_file_yields_whole_entries(
    it: HeaderIteratorView,
    records: Seq<LogRecord>,
    file: Seq<u8>,
)
    requires
        file.len() <= u64::MAX,
        log_lies_in(records, file, it.offset as int),
        it.offset <= it.file_size <= file.len(),
    ensures
        ({
            let whole = whole_records(records, it.offset as int, it.file_size as int);
            let kept = records.take(whole as int);
            &&& whole <= records.len()
            &&& it.items(file.take(it.file_size as int)) == log_metas(
                kept,
                it.file_id,
                it.offset as int,
            ) + torn_items(it.file_size - log_end(kept, it.offset as int))
        }),
    decreases records.len(),
{
    let cut = file.take(it.file_size as int);
    let offset = it.offset as int;
    let end = it.file_size as int;
    let whole = whole_records(records, offset, end);
    if records.len() == 0 {
        assert(records.take(0) == records);
        assert(log_metas(records, it.file_id, offset) + torn_items(0) == it.items(cut));
    } else if end < offset + records[0].size() {
        lemma_torn_entry_is_not_yielded(it, records[0], file);
        assert(records.take(0).len() == 0);
        assert(it.items(cut) == log_metas(records.take(0), it.file_id, offset) + torn_items(
            end - offset,
        ));
    } else {
        let record = records[0];
        let rest = records.drop_first();
        let next = it.moved(record.size());
        lemma_record_survives_cut(record, file, offset, end);
        lemma_whole_entry_is_yielded(it, record, cut);
        law_cut_file_yields_whole_entries(next, rest, file);
        lemma_log_metas_of_front(records, whole, it.file_id, offset);
        let kept_rest = rest.take(whole - 1);
        let left = torn_items(end - log_end(kept_rest, offset + record.size()));
        let metas = log_metas(kept_rest, it.file_id, offset + record.size());
        assert(it.items(cut) == seq![it.item(cut)] + (metas + left));
        assert(seq![it.item(cut)] + (metas + left) == (seq![it.item(cut)] + metas) + left);
    }
}

/// An entry that ends before the cut is still there.
proof fn lemma_record_survives_cut(record: LogRecord, file: Seq<u8>, offset: int, end: int)
    requires
        record.wf(),
        record.lies_in(file, offset),
        offset + record.size() <= end <= file.len(),
    ensures
        record.lies_in(file.take(end), offset),
{
    lemma_record_parts(record, file, offset);
    let len = record.stored().len();
    assert(file.take(end).subrange(offset, offset + len) == file.subrange(offset, offset + len));
}

/// The first `n` entries are the first one and `n - 1` of the rest.
proof fn lemma_log_metas_of_front(records: Seq<LogRecord>, n: nat, file_id: u32, offset: int)
    requires
        0 < n <= records.len(),
    ensures
        ({
            let front = records.take(n as int);
            let rest = records.drop_first().take(n - 1);
            let next = offset + records[0].size();
            &&& log_metas(front, file_id, offset) == seq![
                Some(Ok::<_, StorageError>(records[0].meta(file_id, offset))),
            ] + log_metas(rest, file_id, next)
            &&& log_end(front, offset) == log_end(rest, next)
        }),
{
    assert(records.take(n as int).drop_first() == records.drop_first().take(n - 1));
}

/// A walk does not yield an entry that is cut off, and ends with it.
proof fn lemma_torn_entry_is_not_yielded(it: HeaderIteratorView, record: LogRecord, file: Seq<u8>)
    requires
        file.len() <= u64::MAX,
        record.wf(),
        record.lies_in(file, it.offset as int),
        it.offset <= it.file_size < it.offset + record.size(),
    ensures
        it.items(file.take(it.file_size as int)) == torn_items(it.file_size - it.offset),
{
    let cut = file.take(it.file_size as int);
    let offset = it.offset as int;
    if offset + HEADER_SIZE <= it.file_size {
        lemma_record_parts(record, file, offset);
        assert(cut.subrange(offset, offset + HEADER_SIZE) == file.subrange(
            offset,
            offset + HEADER_SIZE,
        ));
        assert(it.item(cut) == Some(Err::<VlogEntryMetaView, _>(StorageError::PastEndOfFile)));
    }
    if offset < it.file_size {
        assert(it.stepped(cut).items(cut).len() == 0);
        assert(it.items(cut) == seq![it.item(cut)]);
    }
}

/// An entry that is cut off before the end of its value cannot be read.
pub proof fn law_cut_entry_is_not_read(
    record: LogRecord,
    file: Seq<u8>,
    offset: u64,
    size: u32,
    end: int,
)
    requires
        file.len() <= u64::MAX,
        record.wf(),
        record.lies_in(file, offset as int),
        HEADER_SIZE + record.key.len() + record.value.len() <= size,
        offset <= end < offset + HEADER_SIZE + record.key.len() + record.value.len(),
    ensures
        EntryReadView::start(offset, size).run(file.take(end)) is None,
{
    let cut = file.take(end);
    lemma_record_parts(record, file, offset as int);
    law_read_entry(cut, offset, size);
    if offset + HEADER_SIZE <= end {
        assert(cut.subrange(offset as int, offset + HEADER_SIZE) == file.subrange(
            offset as int,
            offset + HEADER_SIZE,
        ));
    }
}

impl HeaderIteratorView {
    /// Whether two files have the same headers and keys wherever the walk reads them.
    pub open spec fn reads_alike(self, a: Seq<u8>, b: Seq<u8>) -> bool
        decreases self.file_size - self.offset,
    {
        match self.request() {
            None => true,
            Some(request) => {
                &&& request.end() <= a.len() ==> {
                    &&& request.answer(a) == request.answer(b)
                    &&& self.header_outcome(request.answer(a)) matches Ok(pending)
                        ==> pending.request().end() <= a.len() ==> pending.request().answer(a)
                        == pending.request().answer(b)
                }
                &&& self.stepped(a).reads_alike(a, b)
            },
        }
    }
}

/// A walk does not depend on the values: files that have the same headers and keys along the walk
/// yield the same.
pub proof fn law_walk_ignores_the_values(it: HeaderIteratorView, a: Seq<u8>, b: Seq<u8>)
    requires
        a.len() == b.len(),
        it.reads_alike(a, b),
    ensures
        it.items(a) == it.items(b),
    decreases it.file_size - it.offset,
{
    if it.request() is Some {
        law_walk_moves_forward(it, a);
        assert(it.item(a) == it.item(b));
        law_walk_ignores_the_values(it.stepped(a), a, b);
    }
}

} // verus!
