use mini_lsm::mem_table::{Bound, MemTable};

#[test]
fn test_memtable_get() {
    let mut memtable = MemTable::create(0);
    memtable.put(b"key1", b"value1").unwrap();
    memtable.put(b"key2", b"value2").unwrap();
    memtable.put(b"key3", b"value3").unwrap();
    assert_eq!(&memtable.get(b"key1").unwrap()[..], b"value1");
    assert_eq!(&memtable.get(b"key2").unwrap()[..], b"value2");
    assert_eq!(&memtable.get(b"key3").unwrap()[..], b"value3");
}

#[test]
fn test_memtable_overwrite() {
    let mut memtable = MemTable::create(0);
    memtable.put(b"key1", b"value1").unwrap();
    memtable.put(b"key2", b"value2").unwrap();
    memtable.put(b"key3", b"value3").unwrap();
    memtable.put(b"key1", b"value11").unwrap();
    memtable.put(b"key2", b"value22").unwrap();
    memtable.put(b"key3", b"value33").unwrap();
    assert_eq!(&memtable.get(b"key1").unwrap()[..], b"value11");
    assert_eq!(&memtable.get(b"key2").unwrap()[..], b"value22");
    assert_eq!(&memtable.get(b"key3").unwrap()[..], b"value33");
}

#[test]
fn test_memtable_iter() {
    let mut memtable = MemTable::create(0);
    memtable.put(b"key1", b"value1").unwrap();
    memtable.put(b"key2", b"value2").unwrap();
    memtable.put(b"key3", b"value3").unwrap();

    {
        let mut iter = memtable.scan(Bound::Unbounded, Bound::Unbounded);
        assert_eq!(iter.key(), b"key1");
        assert_eq!(iter.value(), b"value1");
        iter.next().unwrap();
        assert_eq!(iter.key(), b"key2");
        assert_eq!(iter.value(), b"value2");
        iter.next().unwrap();
        assert_eq!(iter.key(), b"key3");
        assert_eq!(iter.value(), b"value3");
        iter.next().unwrap();
        assert!(!iter.is_valid());
    }

    {
        let mut iter = memtable.scan(Bound::Included(b"key1"), Bound::Included(b"key2"));
        assert_eq!(iter.key(), b"key1");
        assert_eq!(iter.value(), b"value1");
        iter.next().unwrap();
        assert_eq!(iter.key(), b"key2");
        assert_eq!(iter.value(), b"value2");
        iter.next().unwrap();
        assert!(!iter.is_valid());
    }

    {
        let mut iter = memtable.scan(Bound::Excluded(b"key1"), Bound::Excluded(b"key3"));
        assert_eq!(iter.key(), b"key2");
        assert_eq!(iter.value(), b"value2");
        iter.next().unwrap();
        assert!(!iter.is_valid());
    }
}

#[test]
fn missing_keys_are_not_found() {
    let mut memtable = MemTable::create(7);
    assert_eq!(memtable.id(), 7);
    assert_eq!(memtable.get(b"key"), None);
    memtable.put(b"key", b"").unwrap();
    assert_eq!(memtable.get(b"key"), Some(&b""[..]));
    assert_eq!(memtable.get(b"ke"), None);
    assert_eq!(memtable.get(b"key0"), None);
    assert_eq!(memtable.get(b""), None);
}

#[test]
fn keys_come_out_in_byte_order() {
    let mut memtable = MemTable::create(0);
    memtable.put(&[0xFF], b"d").unwrap();
    memtable.put(b"ab", b"c").unwrap();
    memtable.put(b"", b"a").unwrap();
    memtable.put(b"a", b"b").unwrap();
    memtable.put(b"ab", b"C").unwrap();
    let mut found: Vec<(Vec<u8>, Vec<u8>)> = Vec::new();
    let mut iter = memtable.scan(Bound::Unbounded, Bound::Unbounded);
    while iter.is_valid() {
        found.push((iter.key().to_vec(), iter.value().to_vec()));
        iter.next().unwrap();
    }
    let expected: Vec<(Vec<u8>, Vec<u8>)> = vec![
        (b"".to_vec(), b"a".to_vec()),
        (b"a".to_vec(), b"b".to_vec()),
        (b"ab".to_vec(), b"C".to_vec()),
        (vec![0xFF], b"d".to_vec()),
    ];
    assert_eq!(found, expected);
}

#[test]
fn bounds_need_not_be_keys_of_the_table() {
    let mut memtable = MemTable::create(0);
    memtable.put(b"b", b"1").unwrap();
    memtable.put(b"d", b"2").unwrap();
    memtable.put(b"f", b"3").unwrap();
    let mut iter = memtable.scan(Bound::Excluded(b"c"), Bound::Included(b"e"));
    assert_eq!(iter.key(), b"d");
    iter.next().unwrap();
    assert!(!iter.is_valid());
    assert_eq!(iter.key(), b"");
    assert_eq!(iter.value(), b"");
    iter.next().unwrap();
    assert!(!iter.is_valid());
    assert!(!memtable.scan(Bound::Included(b"f"), Bound::Included(b"b")).is_valid());
    assert!(!memtable.scan(Bound::Excluded(b"d"), Bound::Excluded(b"d")).is_valid());
    assert!(memtable.scan(Bound::Included(b"d"), Bound::Included(b"d")).is_valid());
}
