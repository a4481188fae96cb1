use lsm::block::{Block, BlockBuilder, BlockIterator};
use lsm::error::LsmError;
use lsm::key::{key_eq, key_order, KeyOrder};
use lsm::utils::two_u8_to_u16;
use std::sync::Arc;

fn key_of(i: usize) -> Vec<u8> {
    format!("key_{:03}", i * 5).into_bytes()
}

fn value_of(i: usize) -> Vec<u8> {
    format!("value_{:010}", i).into_bytes()
}

fn sample_block(n: usize) -> Block {
    let mut builder = BlockBuilder::new(10000);
    for i in 0..n {
        assert!(builder.add(&key_of(i), &value_of(i)));
    }
    builder.build()
}

#[test]
fn two_bytes_spell_a_number_high_byte_first() {
    assert_eq!(two_u8_to_u16(&[0x08, 0x09]), 0x0809);
    assert_eq!(two_u8_to_u16(&[0xff, 0xff]), 65535);
    assert_eq!(two_u8_to_u16(&[0, 1]), 1);
    assert_eq!(two_u8_to_u16(&[1, 0]), 256);
}

#[test]
fn keys_compare_as_unsigned_bytes() {
    assert_eq!(key_order(b"a", b"b"), KeyOrder::Less);
    assert_eq!(key_order(b"b", b"a"), KeyOrder::Greater);
    assert_eq!(key_order(b"ab", b"ab"), KeyOrder::Equal);
    assert_eq!(key_order(b"a", b"ab"), KeyOrder::Less);
    assert_eq!(key_order(b"", b"a"), KeyOrder::Less);
    assert_eq!(key_order(&[0x7f], &[0x80]), KeyOrder::Less);
    assert_eq!(key_order(&[0xff], &[0x00, 0x01]), KeyOrder::Greater);
    assert!(key_eq(b"same", b"same"));
    assert!(!key_eq(b"same", b"sane"));
}

#[test]
fn builder_admits_first_entry() {
    let mut builder = BlockBuilder::new(16);
    assert!(builder.is_empty());
    assert!(builder.add(b"key", b"a value longer than the block"));
    assert!(!builder.is_empty());
    let block: Block = builder.build();
    assert_eq!(block.offsets, vec![0u16]);
}

#[test]
fn builder_rejects_what_does_not_fit() {
    let mut builder = BlockBuilder::new(16);
    assert!(builder.add(b"233", b"233333"));
    assert!(!builder.add(b"233", b"233333"));
    let block = builder.build();
    assert_eq!(block.offsets.len(), 1);
}

#[test]
fn builder_fills_the_block_to_the_byte() {
    // each entry takes 2 + 1 + 2 + 1 bytes and 2 for its offset; the count takes 2
    let mut exact = BlockBuilder::new(8 + 8 + 2);
    assert!(exact.add(b"a", b"1"));
    assert!(exact.add(b"b", b"2"));
    assert!(!exact.add(b"c", b"3"));
    let mut short = BlockBuilder::new(8 + 8 + 1);
    assert!(short.add(b"a", b"1"));
    assert!(!short.add(b"b", b"2"));
}

#[test]
fn rejected_entry_leaves_the_builder_unchanged() {
    let mut builder = BlockBuilder::new(20);
    assert!(builder.add(b"a", b"1"));
    assert!(!builder.add(b"b", b"a value that is too long"));
    assert!(builder.add(b"b", b"2"));
    let block = builder.build();
    assert_eq!(block.data, vec![0, 1, b'a', 0, 1, b'1', 0, 1, b'b', 0, 1, b'2']);
    assert_eq!(block.offsets, vec![0, 6]);
}

#[test]
fn block_bytes_are_entries_offsets_count() {
    let mut builder = BlockBuilder::new(100);
    assert!(builder.add(b"k1", b"v"));
    assert!(builder.add(b"k2", b""));
    let block = builder.build();
    let bytes = block.encode();
    assert_eq!(
        bytes,
        vec![0, 2, b'k', b'1', 0, 1, b'v', 0, 2, b'k', b'2', 0, 0, 0, 0, 0, 7, 0, 2]
    );
}

#[test]
fn block_offsets_are_written_high_byte_first() {
    let block = Block { data: vec![7; 3], offsets: vec![0x0102, 0xa0b0] };
    assert_eq!(block.encode(), vec![7, 7, 7, 0x01, 0x02, 0xa0, 0xb0, 0, 2]);
}

#[test]
fn block_round_trip() {
    let block = sample_block(100);
    let bytes = block.encode();
    let decoded = Block::decode(&bytes).unwrap();
    assert_eq!(decoded.data, block.data);
    assert_eq!(decoded.offsets, block.offsets);
}

#[test]
fn empty_block_round_trip() {
    let block = BlockBuilder::new(10).build();
    let bytes = block.encode();
    assert_eq!(bytes, vec![0, 0]);
    let decoded = Block::decode(&bytes).unwrap();
    assert!(decoded.data.is_empty());
    assert!(decoded.offsets.is_empty());
}

#[test]
fn short_or_inconsistent_bytes_are_a_format_error() {
    assert_eq!(Block::decode(&[]).err(), Some(LsmError::Format));
    assert_eq!(Block::decode(&[0]).err(), Some(LsmError::Format));
    assert!(Block::decode(&[0, 0]).is_ok());
    // announces one offset but holds none
    assert_eq!(Block::decode(&[0, 1]).err(), Some(LsmError::Format));
    assert_eq!(Block::decode(&[9, 0, 1]).err(), Some(LsmError::Format));
    // announces 0x0909 offsets in five bytes
    assert_eq!(Block::decode(&[1, 2, 3, 9, 9]).err(), Some(LsmError::Format));
    let block = Block::decode(&[0, 0, 0, 1]).unwrap();
    assert!(block.data.is_empty());
    assert_eq!(block.offsets, vec![0u16]);
    let block = Block::decode(&[7, 8, 0x01, 0x02, 0, 1]).unwrap();
    assert_eq!(block.data, vec![7, 8]);
    assert_eq!(block.offsets, vec![0x0102u16]);
}

#[test]
fn iteration_reproduces_the_entries() {
    let block = Arc::new(Block::decode(&sample_block(100).encode()).unwrap());
    let mut iter = BlockIterator::create_and_seek_to_first(block);
    for i in 0..100 {
        assert!(iter.is_valid());
        assert_eq!(iter.key(), &key_of(i)[..]);
        assert_eq!(iter.value(), &value_of(i)[..]);
        iter.next();
    }
    assert!(!iter.is_valid());
    iter.next();
    assert!(!iter.is_valid());
    assert!(iter.key().is_empty());
    assert!(iter.value().is_empty());
    iter.seek_to_first();
    assert!(iter.is_valid());
    assert_eq!(iter.key(), &key_of(0)[..]);
}

#[test]
fn new_cursor_stands_on_no_entry() {
    let iter = BlockIterator::new(Arc::new(sample_block(3)));
    assert!(!iter.is_valid());
    assert!(iter.key().is_empty());
}

#[test]
fn seek_finds_the_first_key_not_before() {
    let block = Arc::new(sample_block(100));
    let mut iter = BlockIterator::create_and_seek_to_key(block.clone(), &key_of(0));
    for offset in 1..=5 {
        for i in 0..100 {
            assert!(iter.is_valid());
            assert_eq!(iter.key(), &key_of(i)[..]);
            assert_eq!(iter.value(), &value_of(i)[..]);
            // a key between this key and the next
            iter.seek_to_key(format!("key_{:03}", i * 5 + offset).as_bytes());
        }
        assert!(!iter.is_valid());
        iter.seek_to_key(b"k");
    }
    let iter = BlockIterator::create_and_seek_to_key(block.clone(), b"key_012");
    assert_eq!(iter.key(), b"key_015");
    let iter = BlockIterator::create_and_seek_to_key(block.clone(), b"key_015");
    assert_eq!(iter.key(), b"key_015");
    let iter = BlockIterator::create_and_seek_to_key(block.clone(), b"a");
    assert_eq!(iter.key(), b"key_000");
    let iter = BlockIterator::create_and_seek_to_key(block, b"z");
    assert!(!iter.is_valid());
}

#[test]
fn cursor_ends_at_an_offset_that_points_nowhere() {
    let block = Block { data: vec![0, 1, b'a', 0, 1, b'1'], offsets: vec![0, 4, 0] };
    let mut iter = BlockIterator::create_and_seek_to_first(Arc::new(block));
    assert!(iter.is_valid());
    assert_eq!(iter.key(), b"a");
    iter.next();
    assert!(!iter.is_valid());
    iter.next();
    assert!(!iter.is_valid());
}
