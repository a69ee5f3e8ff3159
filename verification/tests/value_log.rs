use mini_lsm::error::StorageError;
use mini_lsm::vlog::reader::{
    compare_header_crc, entry_with_crcs, EntryRead, ValueLogReader, VlogEntryMeta,
    VlogHeaderIterator,
};
use mini_lsm::vlog::{ValuePointer, VlogEntry, VlogEntryHeader, VlogFileHeader};

fn file_header() -> [u8; 16] {
    let mut header: [u8; 16] = [0; 16];
    header[..4].copy_from_slice(&0x564C4F47u32.to_le_bytes());
    header[4..6].copy_from_slice(&3u16.to_le_bytes());
    header[6] = 5;
    header
}

fn reader() -> ValueLogReader {
    ValueLogReader::open(&file_header()).unwrap_or_else(|_| panic!("the header is valid"))
}

fn entry_image(key: &[u8], value: &[u8]) -> Vec<u8> {
    let mut covered: Vec<u8> = Vec::new();
    covered.extend_from_slice(&crc32fast::hash(value).to_le_bytes());
    covered.extend_from_slice(&(value.len() as u32).to_le_bytes());
    covered.extend_from_slice(&(key.len() as u16).to_le_bytes());
    covered.extend_from_slice(&0x0102u16.to_le_bytes());
    covered.extend_from_slice(&[1, 2, 3, 4, 5, 6, 7, 8]);
    covered.extend_from_slice(key);
    let mut image: Vec<u8> = crc32fast::hash(&covered).to_le_bytes().to_vec();
    image.extend_from_slice(&covered);
    image.extend_from_slice(value);
    while image.len() % 8 != 0 {
        image.push(0);
    }
    image
}

fn log_of(entries: &[(&[u8], &[u8])]) -> Vec<u8> {
    let mut file: Vec<u8> = file_header().to_vec();
    for (key, value) in entries {
        file.extend_from_slice(&entry_image(key, value));
    }
    file
}

/// `None` stands for a read past the end of the file.
fn fetch(file: &[u8], offset: u64, len: usize) -> Option<Vec<u8>> {
    let start = offset as usize;
    if start > file.len() || file.len() - start < len {
        return None;
    }
    Some(file[start..start + len].to_vec())
}

fn read_entry(file: &[u8], offset: u64, size: u32) -> Option<Result<VlogEntry, StorageError>> {
    let mut read = reader().read_entry(offset, size);
    while let Some(request) = read.request() {
        read = read.resume(fetch(file, request.offset, request.len)?);
    }
    match read {
        EntryRead::Done { outcome } => Some(outcome),
        _ => panic!("nothing was requested before the end"),
    }
}

fn next_meta(
    it: &mut VlogHeaderIterator,
    file: &[u8],
) -> Option<Option<Result<VlogEntryMeta, StorageError>>> {
    let request = it.next()?;
    let header = match fetch(file, request.offset, request.len) {
        Some(bytes) => bytes,
        None => {
            it.read_failed();
            return Some(None);
        }
    };
    let pending = match it.accept_header(&header) {
        Ok(pending) => pending,
        Err(e) => return Some(Some(Err(e))),
    };
    let request = pending.request();
    match fetch(file, request.offset, request.len) {
        Some(key) => Some(Some(it.accept_key(pending, key))),
        None => {
            it.read_failed();
            Some(None)
        }
    }
}

fn walk(file: &[u8]) -> Vec<Option<Result<VlogEntryMeta, StorageError>>> {
    let mut it = reader().iter_headers(file.len() as u64).with_file_id(9);
    let mut found: Vec<Option<Result<VlogEntryMeta, StorageError>>> = Vec::new();
    while let Some(item) = next_meta(&mut it, file) {
        found.push(item);
    }
    found
}

#[test]
fn file_headers_are_decoded() {
    let header = VlogFileHeader::decode(&file_header()).unwrap();
    assert_eq!(header.magic, 0x564C4F47);
    assert_eq!(header.version, 3);
    assert_eq!(header.reserved, [5, 0, 0, 0, 0, 0, 0, 0, 0, 0]);
    assert_eq!(reader().header, header);
}

#[test]
fn files_without_the_magic_number_are_refused() {
    let mut header = file_header();
    header[0] = 0x48;
    let found = VlogFileHeader::decode(&header);
    assert_eq!(found, Err(StorageError::BadMagic { found: 0x564C4F48 }));
    assert!(ValueLogReader::open(&header).is_err());
}

#[test]
fn entry_headers_are_decoded() {
    let image = entry_image(b"key", b"value");
    let header = VlogEntryHeader::decode(&image);
    assert_eq!(header.value_crc32, crc32fast::hash(b"value"));
    assert_eq!(header.value_len, 5);
    assert_eq!(header.key_len, 3);
    assert_eq!(header.flags, 0x0102);
    assert_eq!(header.padding, [1, 2, 3, 4, 5, 6, 7, 8]);
    assert_eq!(header.compute_header_crc(b"key"), header.header_crc32);
    assert_eq!(header.compute_header_crc(b"key"), crc32fast::hash(&image[4..27]));
    assert_ne!(header.compute_header_crc(b"kez"), header.header_crc32);
}

#[test]
fn entry_sizes_are_multiples_of_eight() {
    assert_eq!(VlogEntryHeader::compute_entry_size(0, 0), Some(24));
    assert_eq!(VlogEntryHeader::compute_entry_size(1, 0), Some(32));
    assert_eq!(VlogEntryHeader::compute_entry_size(3, 5), Some(32));
    assert_eq!(VlogEntryHeader::compute_entry_size(4, 5), Some(40));
    assert_eq!(VlogEntryHeader::compute_entry_size(usize::MAX, 0), None);
    assert_eq!(VlogEntryHeader::compute_entry_size(0, usize::MAX - 24), None);
    assert_eq!(VlogEntryHeader::compute_entry_size(0, usize::MAX - 31), Some(usize::MAX - 7));
}

#[test]
fn an_entry_is_read_back() {
    let file = log_of(&[(b"first", b"one"), (b"second", b"another value")]);
    let entry = read_entry(&file, 48, 48).unwrap().unwrap();
    assert_eq!(entry.key, b"second");
    assert_eq!(entry.value, b"another value");
    assert_eq!(entry.size, 48);
    assert_eq!(entry.ptr, ValuePointer { file_id: 0, offset: 48, size: 48 });
    let unpadded = read_entry(&file, 48, 43).unwrap().unwrap();
    assert_eq!(unpadded.value, b"another value");
    assert_eq!(unpadded.ptr.size, 43);
}

#[test]
fn an_entry_can_be_empty() {
    let file = log_of(&[(b"", b"")]);
    let entry = read_entry(&file, 16, 24).unwrap().unwrap();
    assert_eq!(entry.key, b"");
    assert_eq!(entry.value, b"");
}

#[test]
fn entries_smaller_than_a_header_are_refused() {
    let file = log_of(&[(b"first", b"one")]);
    assert_eq!(read_entry(&file, 16, 23), Some(Err(StorageError::EntryTooSmall { size: 23 })));
    assert_eq!(read_entry(&[], 0, 0), Some(Err(StorageError::EntryTooSmall { size: 0 })));
}

#[test]
fn keys_and_values_must_fit_into_the_entry() {
    let file = log_of(&[(b"first", b"one")]);
    assert_eq!(
        read_entry(&file, 16, 28),
        Some(Err(StorageError::KeyTooLong { key_len: 5, remaining: 4 }))
    );
    assert_eq!(
        read_entry(&file, 16, 31),
        Some(Err(StorageError::ValueTooLong { value_len: 3, remaining: 2 }))
    );
}

#[test]
fn a_file_that_ends_too_early_cannot_be_read() {
    let file = log_of(&[(b"first", b"one")]);
    assert_eq!(read_entry(&file, 48, 32), None);
    assert_eq!(read_entry(&file[..42], 16, 32), None);
    assert_eq!(read_entry(&file[..46], 16, 32), None);
    assert_eq!(walk(&file[..30]), vec![None]);
}

#[test]
fn a_changed_key_is_noticed() {
    let mut file = log_of(&[(b"first", b"one")]);
    file[40] = b'F';
    let header = VlogEntryHeader::decode(&file[16..]);
    let expected = StorageError::HeaderCrcMismatch {
        computed: header.compute_header_crc(b"First"),
        stored: header.header_crc32,
        offset: 16,
    };
    assert_eq!(read_entry(&file, 16, 32), Some(Err(expected)));
    assert_eq!(walk(&file), vec![Some(Err(expected))]);
}

#[test]
fn a_changed_value_is_noticed_by_reading_it() {
    let mut file = log_of(&[(b"first", b"one")]);
    file[45] = b'O';
    assert_eq!(
        read_entry(&file, 16, 32),
        Some(Err(StorageError::ValueCrcMismatch {
            computed: crc32fast::hash(b"One"),
            stored: crc32fast::hash(b"one"),
            offset: 16,
        }))
    );
    assert_eq!(walk(&file).len(), 1);
    assert!(matches!(walk(&file)[0], Some(Ok(_))));
}

#[test]
fn checksums_are_compared_as_given() {
    let header = VlogEntryHeader {
        header_crc32: 11,
        value_crc32: 22,
        value_len: 1,
        key_len: 1,
        flags: 0,
        padding: [0; 8],
    };
    assert_eq!(compare_header_crc(&header, 11, 5), Ok(()));
    let mismatch = StorageError::HeaderCrcMismatch { computed: 12, stored: 11, offset: 5 };
    assert_eq!(compare_header_crc(&header, 12, 5), Err(mismatch));
    let entry = entry_with_crcs(5, 32, header, vec![1], vec![2], 11, 22).unwrap();
    assert_eq!(entry.ptr, ValuePointer { file_id: 0, offset: 5, size: 32 });
    assert_eq!((entry.key, entry.value, entry.size), (vec![1], vec![2], 32));
    assert_eq!(entry_with_crcs(5, 32, header, vec![1], vec![2], 12, 23), Err(mismatch));
    assert_eq!(
        entry_with_crcs(5, 32, header, vec![1], vec![2], 11, 23),
        Err(StorageError::ValueCrcMismatch { computed: 23, stored: 22, offset: 5 })
    );
}

#[test]
fn a_walk_yields_every_entry() {
    let file = log_of(&[(b"first", b"one"), (b"second", b"another value"), (b"", b"")]);
    let metas: Vec<VlogEntryMeta> = walk(&file).into_iter().map(|m| m.unwrap().unwrap()).collect();
    assert_eq!(metas.len(), 3);
    assert_eq!(metas[0].key, b"first");
    assert_eq!(metas[0].ptr, ValuePointer { file_id: 9, offset: 16, size: 32 });
    assert_eq!(metas[0].value_len, 3);
    assert_eq!(metas[1].key, b"second");
    assert_eq!(metas[1].ptr, ValuePointer { file_id: 9, offset: 48, size: 48 });
    assert_eq!(metas[1].entry_size, 48);
    assert_eq!(metas[2].ptr, ValuePointer { file_id: 9, offset: 96, size: 24 });
    for meta in metas {
        let entry = read_entry(&file, meta.ptr.offset, meta.ptr.size).unwrap().unwrap();
        assert_eq!(entry.key, meta.key);
        assert_eq!(entry.value.len(), meta.value_len as usize);
    }
}

#[test]
fn a_walk_over_no_entries_ends_at_once() {
    assert!(walk(&file_header()).is_empty());
    assert!(reader().iter_headers(3).next().is_none());
}

#[test]
fn a_walk_ends_with_an_entry_past_the_end() {
    let file = log_of(&[(b"first", b"one"), (b"second", b"another value")]);
    let found = walk(&file[..80]);
    assert_eq!(found.len(), 2);
    assert_eq!(found[1], Some(Err(StorageError::PastEndOfFile)));
}

#[test]
fn a_walk_ends_with_an_entry_that_no_pointer_can_name() {
    let mut file = log_of(&[(b"first", b"one"), (b"second", b"two")]);
    file[24..28].copy_from_slice(&u32::MAX.to_le_bytes());
    assert_eq!(walk(&file), vec![Some(Err(StorageError::EntryTooLarge))]);
}

#[test]
fn a_walk_moves_by_whole_entries() {
    let mut it = reader().iter_headers(u64::MAX);
    let mut header = [0u8; 24];
    header[8..12].copy_from_slice(&0xFFFF_FFE0u32.to_le_bytes());
    let pending = it.accept_header(&header).unwrap_or_else(|_| panic!("the entry fits"));
    assert_eq!(pending.request().offset, 40);
    assert_eq!(pending.request().len, 0);
    let meta = it.accept_key_with_crc(pending, Vec::new(), 0).unwrap();
    assert_eq!(meta.ptr, ValuePointer { file_id: 0, offset: 16, size: 0xFFFF_FFF8 });
    assert_eq!(it.next().unwrap().offset, 16 + 0xFFFF_FFF8);
    let pending = it.accept_header(&header).unwrap_or_else(|_| panic!("the entry fits"));
    let mismatch = it.accept_key_with_crc(pending, Vec::new(), 1).unwrap_err();
    assert_eq!(
        mismatch,
        StorageError::HeaderCrcMismatch { computed: 1, stored: 0, offset: 16 + 0xFFFF_FFF8 }
    );
    assert!(it.next().is_none());
}

#[test]
fn no_flipped_bit_is_accepted() {
    let file = log_of(&[(b"first", b"one"), (b"second", b"another value")]);
    for bit in 0..32 * 8 {
        let mut changed = file.clone();
        changed[16 + bit / 8] ^= 1 << (bit % 8);
        assert!(!matches!(read_entry(&changed, 16, 32), Some(Ok(_))));
    }
}

#[test]
fn a_changed_checksum_is_refused() {
    let mut file = log_of(&[(b"first", b"one")]);
    file[16..24].copy_from_slice(&[9; 8]);
    assert!(matches!(
        read_entry(&file, 16, 32),
        Some(Err(StorageError::HeaderCrcMismatch { stored: 0x09090909, offset: 16, .. }))
    ));
}

#[test]
fn a_cut_file_yields_whole_entries() {
    let file = log_of(&[(b"first", b"one"), (b"second", b"another value")]);
    for end in 16..=file.len() {
        let found = walk(&file[..end]);
        let whole: usize = if end < 48 { 0 } else if end < 96 { 1 } else { 2 };
        assert!(found[..whole].iter().all(|item| matches!(item, Some(Ok(_)))));
        let start: usize = [16, 48, 96][whole];
        if end == start {
            assert_eq!(found.len(), whole);
        } else if end - start < 24 {
            assert_eq!(found[whole..], [None]);
        } else {
            assert_eq!(found[whole..], [Some(Err(StorageError::PastEndOfFile))]);
        }
        assert_eq!(read_entry(&file[..end], 48, 48).is_none(), end < 91);
    }
}

#[test]
fn a_walk_ignores_the_values() {
    let file = log_of(&[(b"first", b"one"), (b"second", b"another value")]);
    let mut changed = file.clone();
    changed[45..48].copy_from_slice(b"two");
    changed[80] = 0;
    assert_eq!(walk(&file), walk(&changed));
}

/// CRC-32 by its definition, bit by bit.
fn crc_by_bits(bytes: &[u8]) -> u32 {
    let mut register: u32 = 0xFFFF_FFFF;
    for byte in bytes {
        register ^= *byte as u32;
        for _ in 0..8 {
            let out = register & 1;
            register >>= 1;
            if out == 1 {
                register ^= 0xEDB8_8320;
            }
        }
    }
    register ^ 0xFFFF_FFFF
}

#[test]
fn checksums_are_crc_32() {
    assert_eq!(crc32fast::hash(b""), 0);
    assert_eq!(crc32fast::hash(b"123456789"), 0xCBF4_3926);
    assert_eq!(crc_by_bits(b"123456789"), 0xCBF4_3926);
    let bytes: Vec<u8> = (0..3000u32).map(|i| (i * i / 7) as u8).collect();
    for len in (0..300).chain([511, 512, 1023, 1024, 2048, 3000]) {
        assert_eq!(crc32fast::hash(&bytes[..len]), crc_by_bits(&bytes[..len]));
    }
    let image = entry_image(&bytes[..100], b"value");
    let header = VlogEntryHeader::decode(&image);
    assert_eq!(header.compute_header_crc(&bytes[..100]), crc_by_bits(&image[4..124]));
    assert_eq!(header.value_crc32, crc_by_bits(b"value"));
}

#[test]
fn no_changed_byte_is_accepted() {
    let file = log_of(&[(b"first", b"one")]);
    for i in (16..48).filter(|i| *i != 28 && *i != 29) {
        for byte in 0..=255u8 {
            let mut changed = file.clone();
            changed[i] = byte;
            let same = byte == file[i];
            assert_eq!(matches!(read_entry(&changed, 16, 32), Some(Ok(_))), same);
            let yielded = matches!(walk(&changed)[0], Some(Ok(_)));
            assert_eq!(yielded, same || i >= 45);
        }
    }
}
