use std::sync::Arc;

use mini_lsm::block::iterator::BlockIterator;
use mini_lsm::block::Block;
use mini_lsm::key::{key_less, Key};

fn block_of(entries: &[(&[u8], &[u8])]) -> Arc<Block> {
    let mut data: Vec<u8> = Vec::new();
    let mut offsets: Vec<u16> = Vec::new();
    for (key, value) in entries {
        offsets.push(data.len() as u16);
        data.extend_from_slice(&(key.len() as u16).to_be_bytes());
        data.extend_from_slice(key);
        data.extend_from_slice(&(value.len() as u16).to_be_bytes());
        data.extend_from_slice(value);
    }
    Arc::new(Block { data, offsets })
}

fn fruit() -> Arc<Block> {
    block_of(&[(b"apple", b"red"), (b"banana", b"yellow"), (b"cherry", b""), (b"date", b"brown")])
}

fn seek(key: &[u8]) -> BlockIterator {
    BlockIterator::create_and_seek_to_key(fruit(), Key::from_slice(key))
}

#[test]
fn walks_over_all_entries() {
    let mut it = BlockIterator::create_and_seek_to_first(fruit());
    let mut found: Vec<(Vec<u8>, Vec<u8>)> = Vec::new();
    while it.is_valid() {
        found.push((it.key().raw_ref().to_vec(), it.value().to_vec()));
        it.next();
    }
    assert_eq!(found.len(), 4);
    assert_eq!(found[0], (b"apple".to_vec(), b"red".to_vec()));
    assert_eq!(found[1], (b"banana".to_vec(), b"yellow".to_vec()));
    assert_eq!(found[2], (b"cherry".to_vec(), b"".to_vec()));
    assert_eq!(found[3], (b"date".to_vec(), b"brown".to_vec()));
    assert!(it.key().is_empty());
    assert_eq!(it.value(), b"");
    it.next();
    assert!(!it.is_valid());
    it.seek_to_first();
    assert_eq!(it.key().raw_ref(), b"apple");
}

#[test]
fn seeks_to_a_key_that_is_there() {
    let it = seek(b"banana");
    assert!(it.is_valid());
    assert_eq!(it.key().raw_ref(), b"banana");
    assert_eq!(it.value(), b"yellow");
    assert_eq!(seek(b"apple").value(), b"red");
    assert_eq!(seek(b"date").value(), b"brown");
}

#[test]
fn seeks_to_the_first_key_behind_a_missing_one() {
    assert_eq!(seek(b"").key().raw_ref(), b"apple");
    assert_eq!(seek(b"b").key().raw_ref(), b"banana");
    assert_eq!(seek(b"banana0").key().raw_ref(), b"cherry");
    assert_eq!(seek(b"d").key().raw_ref(), b"date");
}

#[test]
fn there_is_no_entry_behind_the_last_key() {
    let it = seek(b"dates");
    assert!(!it.is_valid());
    assert!(it.key().is_empty());
    assert_eq!(it.value(), b"");
}

#[test]
fn seeking_moves_both_ways() {
    let mut it = seek(b"zebra");
    it.seek_to_key(Key::from_slice(b"apricot"));
    assert_eq!(it.key().raw_ref(), b"banana");
    it.seek_to_key(Key::from_slice(b"cherry"));
    assert_eq!(it.key().raw_ref(), b"cherry");
    it.next();
    assert_eq!(it.key().raw_ref(), b"date");
    it.seek_to_key(Key::from_slice(b"a"));
    assert_eq!(it.key().raw_ref(), b"apple");
}

#[test]
fn seeks_to_the_first_of_equal_keys() {
    let block = block_of(&[(b"a", b"1"), (b"b", b"2"), (b"b", b"3"), (b"b", b"4"), (b"c", b"5")]);
    let it = BlockIterator::create_and_seek_to_key(block, Key::from_slice(b"b"));
    assert_eq!(it.value(), b"2");
}

#[test]
fn an_empty_key_reads_as_invalid() {
    let it = BlockIterator::create_and_seek_to_first(block_of(&[(b"", b"value")]));
    assert!(!it.is_valid());
    assert_eq!(it.value(), b"value");
}

#[test]
fn lengths_are_big_endian() {
    let key: Vec<u8> = vec![7; 0x0102];
    let value: Vec<u8> = vec![9; 0x0203];
    let block = block_of(&[(&key[..], &value[..])]);
    assert_eq!(&block.data[..2], &[1, 2]);
    let it = BlockIterator::create_and_seek_to_first(block);
    assert_eq!(it.key().raw_ref(), &key[..]);
    assert_eq!(it.value(), &value[..]);
}

#[test]
fn keys_are_ordered_by_bytes() {
    assert!(key_less(b"", b"a"));
    assert!(key_less(b"a", b"aa"));
    assert!(key_less(b"aa", b"b"));
    assert!(key_less(&[0x7F], &[0x80]));
    assert!(!key_less(b"a", b"a"));
    assert!(!key_less(b"b", b"ab"));
    assert!(!key_less(b"", b""));
}

#[test]
fn an_earlier_position_leaves_no_trace() {
    let unsorted =
        block_of(&[(b"m", b"1"), (b"a", b"2"), (b"z", b"3"), (b"c", b"4"), (b"b", b"5")]);
    for steps in 0..7 {
        for key in [&b""[..], b"a", b"b", b"c", b"n", b"zz"] {
            let mut moved = BlockIterator::create_and_seek_to_first(unsorted.clone());
            for _ in 0..steps {
                moved.next();
            }
            moved.seek_to_key(Key::from_slice(key));
            let mut fresh =
                BlockIterator::create_and_seek_to_key(unsorted.clone(), Key::from_slice(key));
            assert_eq!(moved.key(), fresh.key());
            assert_eq!(moved.value(), fresh.value());
            moved.next();
            fresh.next();
            assert_eq!(moved.key(), fresh.key());
            moved.seek_to_first();
            assert_eq!(moved.key().raw_ref(), b"m");
            moved.seek_to_key(Key::from_slice(b"c"));
            let mut first = BlockIterator::create_and_seek_to_first(unsorted.clone());
            first.seek_to_key(Key::from_slice(b"c"));
            assert_eq!(moved.value(), first.value());
        }
    }
}

#[test]
fn a_block_that_is_not_sorted_is_searched_by_halving() {
    let block = block_of(&[(b"m", b"1"), (b"a", b"2"), (b"z", b"3"), (b"c", b"4"), (b"b", b"5")]);
    let it = BlockIterator::create_and_seek_to_key(block.clone(), Key::from_slice(b"b"));
    assert_eq!(it.value(), b"3");
    let it = BlockIterator::create_and_seek_to_key(block, Key::from_slice(b"zz"));
    assert!(!it.is_valid());
}
