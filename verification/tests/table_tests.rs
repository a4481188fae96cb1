use lsm::error::LsmError;
use lsm::iterators::StorageIterator;
use lsm::table::{BlockMeta, FileObject, SsTable, SsTableBuilder, SsTableIterator};
use std::sync::Arc;

fn table_key(i: usize) -> Vec<u8> {
    format!("key_{:03}", i * 5).into_bytes()
}

fn table_value(i: usize) -> Vec<u8> {
    format!("value_{:010}", i).into_bytes()
}

fn sample_table(n: usize) -> SsTable {
    let mut builder = SsTableBuilder::new(128);
    for i in 0..n {
        builder.add(&table_key(i), &table_value(i));
    }
    builder.build_for_test("sample.sst").unwrap()
}

#[test]
fn index_bytes_are_offset_length_key() {
    let metas = vec![
        BlockMeta { offset: 0, first_key: b"a".to_vec() },
        BlockMeta { offset: 0x01020304, first_key: b"key".to_vec() },
    ];
    let mut buf = vec![9];
    BlockMeta::encode_block_meta(&metas, &mut buf);
    assert_eq!(
        buf,
        vec![9, 0, 0, 0, 0, 0, 1, b'a', 1, 2, 3, 4, 0, 3, b'k', b'e', b'y']
    );
    let decoded = BlockMeta::decode_block_meta(&buf[1..]).unwrap();
    assert_eq!(decoded.len(), 2);
    assert_eq!(decoded[0].offset, 0);
    assert_eq!(decoded[0].first_key, b"a");
    assert_eq!(decoded[1].offset, 0x01020304);
    assert_eq!(decoded[1].first_key, b"key");
}

#[test]
fn broken_index_is_a_format_error() {
    assert!(BlockMeta::decode_block_meta(&[]).unwrap().is_empty());
    assert_eq!(
        BlockMeta::decode_block_meta(&[0, 0, 0]).err(),
        Some(LsmError::Format)
    );
    // announces a key of two bytes and holds one
    assert_eq!(
        BlockMeta::decode_block_meta(&[0, 0, 0, 0, 0, 2, b'a']).err(),
        Some(LsmError::Format)
    );
}

#[test]
fn file_object_reads_ranges() {
    let file = FileObject::create("f", vec![1, 2, 3, 4, 5]).unwrap();
    assert_eq!(file.size(), 5);
    assert_eq!(file.read(1, 3).unwrap(), vec![2, 3, 4]);
    assert_eq!(file.read(5, 0).unwrap(), Vec::<u8>::new());
    assert_eq!(file.read(3, 3).err(), Some(LsmError::Format));
    assert_eq!(file.read(6, 0).err(), Some(LsmError::Format));
    assert_eq!(file.read(u64::MAX, 2).err(), Some(LsmError::Format));
}

#[test]
fn builder_with_one_entry() {
    let mut builder = SsTableBuilder::new(16);
    builder.add(b"233", b"233333");
    let table = builder.build_for_test("one.sst").unwrap();
    assert_eq!(table.num_of_blocks(), 1);
    assert_eq!(table.block_metas[0].offset, 0);
    assert_eq!(table.block_metas[0].first_key, b"233");
}

#[test]
fn builder_opens_a_new_block_when_one_is_full() {
    let mut builder = SsTableBuilder::new(16);
    builder.add(b"11", b"11");
    assert_eq!(builder.estimated_size(), 0);
    builder.add(b"22", b"22");
    builder.add(b"33", b"11");
    builder.add(b"44", b"22");
    builder.add(b"55", b"11");
    builder.add(b"66", b"22");
    assert!(builder.meta.len() >= 2);
    assert!(builder.estimated_size() > 0);
    let table = builder.build_for_test("many.sst").unwrap();
    assert_eq!(table.num_of_blocks(), 6);
    let firsts: Vec<Vec<u8>> = table.block_metas.iter().map(|m| m.first_key.clone()).collect();
    assert_eq!(
        firsts,
        vec![b"11".to_vec(), b"22".to_vec(), b"33".to_vec(), b"44".to_vec(), b"55".to_vec(), b"66".to_vec()]
    );
    let offsets: Vec<usize> = table.block_metas.iter().map(|m| m.offset).collect();
    assert_eq!(offsets, vec![0, 12, 24, 36, 48, 60]);
    assert_eq!(table.block_meta_offset, 72);
}

#[test]
fn table_file_layout() {
    let mut builder = SsTableBuilder::new(64);
    builder.add(b"a", b"1");
    builder.add(b"b", b"2");
    let table = builder.build_for_test("layout.sst").unwrap();
    let size = table.file.size();
    let bytes = table.file.read(0, size).unwrap();
    assert_eq!(
        bytes,
        vec![
            0, 1, b'a', 0, 1, b'1', 0, 1, b'b', 0, 1, b'2', // entries
            0, 0, 0, 6, 0, 2, // offsets and count
            0, 0, 0, 0, 0, 1, b'a', // index
            0, 0, 0, 18, // offset of the index
        ]
    );
}

#[test]
fn first_keys_of_the_index_are_those_of_the_blocks() {
    let table = sample_table(100);
    assert!(table.num_of_blocks() > 1);
    for idx in 0..table.num_of_blocks() {
        let block = table.read_block(idx).unwrap();
        let iter = lsm::block::BlockIterator::create_and_seek_to_first(block);
        assert!(iter.is_valid());
        assert_eq!(iter.key(), &table.block_metas[idx].first_key[..]);
    }
}

#[test]
fn open_reads_back_what_build_wrote() {
    let table = sample_table(100);
    let size = table.file.size();
    let bytes = table.file.read(0, size).unwrap();
    let opened = SsTable::open_for_test(FileObject::create("copy.sst", bytes).unwrap()).unwrap();
    assert_eq!(opened.num_of_blocks(), table.num_of_blocks());
    assert_eq!(opened.block_meta_offset, table.block_meta_offset);
    for idx in 0..table.num_of_blocks() {
        assert_eq!(opened.block_metas[idx].offset, table.block_metas[idx].offset);
        assert_eq!(opened.block_metas[idx].first_key, table.block_metas[idx].first_key);
        assert_eq!(
            opened.read_block_cached(idx).unwrap().data,
            table.read_block(idx).unwrap().data
        );
    }
}

#[test]
fn open_rejects_broken_files() {
    let open = |bytes: Vec<u8>| SsTable::open_for_test(FileObject::create("x", bytes).unwrap());
    assert_eq!(open(vec![]).err(), Some(LsmError::Format));
    assert_eq!(open(vec![0, 0, 0]).err(), Some(LsmError::Format));
    // the index is said to start behind the end
    assert_eq!(open(vec![0, 0, 0, 0, 0, 9]).err(), Some(LsmError::Format));
    // the index is cut short
    assert_eq!(open(vec![0, 0, 0, 0, 0, 0, 0, 0]).err(), Some(LsmError::Format));
    // no block and no index
    let empty = open(vec![0, 0, 0, 0]).unwrap();
    assert_eq!(empty.num_of_blocks(), 0);
}

#[test]
fn read_block_rejects_what_is_not_a_block() {
    let table = sample_table(10);
    assert_eq!(table.read_block(table.num_of_blocks()).err(), Some(LsmError::Format));
    assert_eq!(table.read_block_cached(usize::MAX).err(), Some(LsmError::Format));
    // one block said to hold 0x0909 entries in two bytes
    let bytes = vec![9, 9, 0, 0, 0, 0, 0, 1, b'a', 0, 0, 0, 2];
    let broken = SsTable::open_for_test(FileObject::create("x", bytes).unwrap()).unwrap();
    assert_eq!(broken.num_of_blocks(), 1);
    assert_eq!(broken.read_block(0).err(), Some(LsmError::Format));
}

#[test]
fn find_block_idx_names_the_last_block_that_starts_at_or_before() {
    let mut builder = SsTableBuilder::new(16);
    builder.add(b"11", b"11");
    builder.add(b"33", b"33");
    builder.add(b"55", b"55");
    let table = builder.build_for_test("idx.sst").unwrap();
    assert_eq!(table.num_of_blocks(), 3);
    assert_eq!(table.find_block_idx(b"00"), 0);
    assert_eq!(table.find_block_idx(b"11"), 0);
    assert_eq!(table.find_block_idx(b"22"), 0);
    assert_eq!(table.find_block_idx(b"33"), 1);
    assert_eq!(table.find_block_idx(b"44"), 1);
    assert_eq!(table.find_block_idx(b"55"), 2);
    assert_eq!(table.find_block_idx(b"99"), 2);
}

#[test]
fn table_cursor_walks_every_block() {
    let table = Arc::new(sample_table(100));
    let mut iter = SsTableIterator::create_and_seek_to_first(table).unwrap();
    for _ in 0..3 {
        for i in 0..100 {
            assert!(iter.is_valid());
            assert_eq!(iter.key(), &table_key(i)[..]);
            assert_eq!(iter.value(), &table_value(i)[..]);
            iter.next().unwrap();
        }
        assert!(!iter.is_valid());
        iter.next().unwrap();
        assert!(!iter.is_valid());
        iter.seek_to_first().unwrap();
    }
}

#[test]
fn table_cursor_seeks_across_blocks() {
    let table = Arc::new(sample_table(100));
    let mut iter = SsTableIterator::create_and_seek_to_key(table.clone(), &table_key(0)).unwrap();
    for offset in 1..=5 {
        for i in 0..100 {
            assert!(iter.is_valid());
            assert_eq!(iter.key(), &table_key(i)[..]);
            assert_eq!(iter.value(), &table_value(i)[..]);
            iter.seek_to_key(format!("key_{:03}", i * 5 + offset).as_bytes()).unwrap();
        }
        assert!(!iter.is_valid());
        iter.seek_to_key(b"k").unwrap();
    }
    let iter = SsTableIterator::create_and_seek_to_key(table.clone(), b"zzz").unwrap();
    assert!(!iter.is_valid());
    let iter = SsTableIterator::create_and_seek_to_key(table, b"").unwrap();
    assert_eq!(iter.key(), &table_key(0)[..]);
}

#[test]
fn table_without_entries_has_no_blocks() {
    let table = Arc::new(SsTableBuilder::new(64).build_for_test("none.sst").unwrap());
    assert_eq!(table.num_of_blocks(), 0);
    assert_eq!(table.find_block_idx(b"a"), 0);
    let mut iter = SsTableIterator::create_and_seek_to_first(table.clone()).unwrap();
    assert!(!iter.is_valid());
    iter.next().unwrap();
    assert!(!iter.is_valid());
    let iter = SsTableIterator::create_and_seek_to_key(table, b"a").unwrap();
    assert!(!iter.is_valid());
}

#[test]
fn built_table_is_well_formed() {
    assert_eq!(sample_table(100).validate(), Ok(()));
    assert_eq!(sample_table(1).validate(), Ok(()));
    assert_eq!(SsTableBuilder::new(64).build_for_test("none.sst").unwrap().validate(), Ok(()));
}

#[test]
fn table_with_keys_out_of_order_is_not_well_formed() {
    let mut builder = SsTableBuilder::new(64);
    builder.add(b"b", b"1");
    builder.add(b"a", b"2");
    assert_eq!(builder.build_for_test("x").unwrap().validate(), Err(LsmError::Format));
    let mut builder = SsTableBuilder::new(64);
    builder.add(b"a", b"1");
    builder.add(b"a", b"2");
    assert_eq!(builder.build_for_test("x").unwrap().validate(), Err(LsmError::Format));
    // the order is broken between two blocks
    let mut builder = SsTableBuilder::new(16);
    builder.add(b"11", b"11");
    builder.add(b"33", b"33");
    builder.add(b"22", b"22");
    let table = builder.build_for_test("x").unwrap();
    assert_eq!(table.num_of_blocks(), 3);
    assert_eq!(table.validate(), Err(LsmError::Format));
}

#[test]
fn broken_table_is_not_well_formed() {
    let open = |bytes: Vec<u8>| SsTable::open_for_test(FileObject::create("x", bytes).unwrap()).unwrap();
    let good = vec![
        0, 1, b'a', 0, 1, b'1', 0, 0, 0, 1, // a block with one entry
        0, 0, 0, 0, 0, 1, b'a', // the index
        0, 0, 0, 10,
    ];
    assert_eq!(open(good.clone()).validate(), Ok(()));
    // the index gives another first key
    let mut bytes = good.clone();
    bytes[16] = b'b';
    assert_eq!(open(bytes).validate(), Err(LsmError::Format));
    // the value is said to be longer than the block
    let mut bytes = good.clone();
    bytes[4] = 9;
    assert_eq!(open(bytes).validate(), Err(LsmError::Format));
    // the offset points behind the entries
    let mut bytes = good.clone();
    bytes[7] = 6;
    assert_eq!(open(bytes).validate(), Err(LsmError::Format));
    // the key is empty
    let empty_key = vec![0, 0, 0, 1, b'1', 0, 0, 0, 1, 0, 0, 0, 0, 0, 0, 0, 0, 0, 9];
    assert_eq!(open(empty_key).validate(), Err(LsmError::Format));
    // the block holds no entry
    let no_entry = vec![0, 0, 0, 0, 0, 0, 0, 1, b'a', 0, 0, 0, 2];
    assert_eq!(open(no_entry).validate(), Err(LsmError::Format));
    // the block starts behind the index
    let mut bytes = good.clone();
    bytes[13] = 11;
    assert_eq!(open(bytes).validate(), Err(LsmError::Format));
}
