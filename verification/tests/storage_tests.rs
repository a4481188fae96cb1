use lsm::iterators::StorageIterator;
use lsm::lsm_storage::{LsmStorage, LsmStorageInner};
use lsm::mem_table::{map_bound, MemTable};
use lsm::table::SsTableBuilder;
use std::ops::Bound;

fn entries<I: StorageIterator>(iter: &mut I) -> Vec<(String, String)> {
    let mut out = Vec::new();
    while iter.is_valid() {
        out.push((
            String::from_utf8(iter.key().to_vec()).unwrap(),
            String::from_utf8(iter.value().to_vec()).unwrap(),
        ));
        iter.next().unwrap();
    }
    out
}

fn keys<I: StorageIterator>(iter: &mut I) -> Vec<String> {
    entries(iter).into_iter().map(|(k, _)| k).collect()
}

fn pairs(data: Vec<(&str, &str)>) -> Vec<(String, String)> {
    data.into_iter().map(|(k, v)| (k.to_string(), v.to_string())).collect()
}

fn get(store: &LsmStorage, key: &str) -> Option<String> {
    store.get(key.as_bytes()).unwrap().map(|v| String::from_utf8(v).unwrap())
}

#[test]
fn memtable_keeps_the_last_value() {
    let mut table = MemTable::create();
    table.put(b"key2", b"value2");
    table.put(b"key1", b"value1");
    table.put(b"key3", b"value3");
    assert_eq!(table.get(b"key1"), Some(b"value1".to_vec()));
    assert_eq!(table.get(b"key2"), Some(b"value2".to_vec()));
    assert_eq!(table.get(b"key3"), Some(b"value3".to_vec()));
    assert_eq!(table.get(b"key0"), None);
    assert_eq!(table.get(b"key4"), None);
    table.put(b"key2", b"again");
    table.put(b"key1", b"");
    assert_eq!(table.get(b"key2"), Some(b"again".to_vec()));
    assert_eq!(table.get(b"key1"), Some(Vec::new()));
}

#[test]
fn memtable_scans_between_bounds() {
    let mut table = MemTable::create();
    for key in ["e", "a", "c", "b", "d"] {
        table.put(key.as_bytes(), key.to_uppercase().as_bytes());
    }
    let all = ["a", "b", "c", "d", "e"];
    let scan = |lower: Bound<&[u8]>, upper: Bound<&[u8]>| keys(&mut table.scan(lower, upper));
    assert_eq!(scan(Bound::Unbounded, Bound::Unbounded), all);
    assert_eq!(scan(Bound::Included(b"b"), Bound::Included(b"d")), ["b", "c", "d"]);
    assert_eq!(scan(Bound::Excluded(b"b"), Bound::Excluded(b"d")), ["c"]);
    assert_eq!(scan(Bound::Excluded(b"b"), Bound::Included(b"d")), ["c", "d"]);
    assert_eq!(scan(Bound::Included(b"bb"), Bound::Unbounded), ["c", "d", "e"]);
    assert_eq!(scan(Bound::Unbounded, Bound::Excluded(b"a")), Vec::<String>::new());
    assert_eq!(scan(Bound::Included(b"d"), Bound::Included(b"b")), Vec::<String>::new());
    assert_eq!(scan(Bound::Excluded(b"c"), Bound::Excluded(b"c")), Vec::<String>::new());
    assert_eq!(scan(Bound::Included(b"c"), Bound::Included(b"c")), ["c"]);
    assert_eq!(scan(Bound::Excluded(b"e"), Bound::Unbounded), Vec::<String>::new());
    let mut iter = table.scan(Bound::Included(b"e"), Bound::Unbounded);
    assert_eq!(iter.value(), b"E");
    iter.next().unwrap();
    assert!(!iter.is_valid());
    assert!(iter.key().is_empty());
    iter.next().unwrap();
    assert!(!iter.is_valid());
}

#[test]
fn memtable_flushes_in_key_order() {
    let mut table = MemTable::create();
    table.put(b"b", b"2");
    table.put(b"a", b"1");
    table.put(b"c", b"");
    let mut builder = SsTableBuilder::new(128);
    table.flush(&mut builder).unwrap();
    let sst = std::sync::Arc::new(builder.build_for_test("flush.sst").unwrap());
    let mut iter = lsm::table::SsTableIterator::create_and_seek_to_first(sst).unwrap();
    assert_eq!(entries(&mut iter), pairs(vec![("a", "1"), ("b", "2"), ("c", "")]));
}

#[test]
fn bound_is_copied() {
    assert_eq!(map_bound(Bound::Included(b"k")), Bound::Included(b"k".to_vec()));
    assert_eq!(map_bound(Bound::Excluded(b"k")), Bound::Excluded(b"k".to_vec()));
    assert_eq!(map_bound(Bound::Unbounded), Bound::Unbounded);
}

#[test]
fn get_returns_what_was_put() {
    let store = LsmStorage::open("dir").unwrap();
    store.put(b"a", b"1").unwrap();
    store.put(b"b", b"2").unwrap();
    store.put(b"c", b"3").unwrap();
    assert_eq!(get(&store, "a"), Some("1".to_string()));
    assert_eq!(get(&store, "b"), Some("2".to_string()));
    assert_eq!(get(&store, "z"), None);
}

#[test]
fn get_does_not_show_a_deleted_key() {
    let store = LsmStorage::open("dir").unwrap();
    store.put(b"k", b"v").unwrap();
    store.delete(b"k").unwrap();
    assert_eq!(get(&store, "k"), None);
}

#[test]
fn memtable_shadows_the_tables() {
    let store = LsmStorage::open("dir").unwrap();
    store.put(b"a", b"1").unwrap();
    store.sync().unwrap();
    assert_eq!(get(&store, "a"), Some("1".to_string()));
    store.put(b"a", b"2").unwrap();
    assert_eq!(get(&store, "a"), Some("2".to_string()));
    store.delete(b"a").unwrap();
    assert_eq!(get(&store, "a"), None);
}

#[test]
fn later_table_shadows_the_earlier() {
    let store = LsmStorage::open("dir").unwrap();
    store.put(b"a", b"1").unwrap();
    store.put(b"b", b"2").unwrap();
    store.sync().unwrap();
    store.put(b"b", b"3").unwrap();
    store.put(b"c", b"4").unwrap();
    store.sync().unwrap();
    assert_eq!(get(&store, "b"), Some("3".to_string()));
    assert_eq!(get(&store, "a"), Some("1".to_string()));
    assert_eq!(get(&store, "c"), Some("4".to_string()));
    let mut iter = store.scan(Bound::Unbounded, Bound::Unbounded).unwrap();
    assert_eq!(entries(&mut iter), pairs(vec![("a", "1"), ("b", "3"), ("c", "4")]));
}

#[test]
fn scan_between_bounds() {
    let store = LsmStorage::open("dir").unwrap();
    for key in ["a", "b", "c", "d", "e"] {
        store.put(key.as_bytes(), b"v").unwrap();
    }
    let mut iter = store.scan(Bound::Excluded(b"b"), Bound::Included(b"d")).unwrap();
    assert_eq!(keys(&mut iter), ["c", "d"]);
    store.sync().unwrap();
    let mut iter = store.scan(Bound::Excluded(b"b"), Bound::Included(b"d")).unwrap();
    assert_eq!(keys(&mut iter), ["c", "d"]);
    let mut iter = store.scan(Bound::Included(b"b"), Bound::Excluded(b"d")).unwrap();
    assert_eq!(keys(&mut iter), ["b", "c"]);
    let mut iter = store.scan(Bound::Unbounded, Bound::Excluded(b"c")).unwrap();
    assert_eq!(keys(&mut iter), ["a", "b"]);
    let mut iter = store.scan(Bound::Excluded(b"e"), Bound::Unbounded).unwrap();
    assert_eq!(keys(&mut iter), Vec::<String>::new());
}

#[test]
fn scan_passes_over_deleted_keys() {
    let store = LsmStorage::open("dir").unwrap();
    store.put(b"1", b"233").unwrap();
    store.put(b"2", b"2333").unwrap();
    store.put(b"3", b"23333").unwrap();
    store.delete(b"2").unwrap();
    store.sync().unwrap();
    store.delete(b"1").unwrap();
    store.put(b"4", b"x").unwrap();
    store.sync().unwrap();
    store.put(b"1", b"again").unwrap();
    store.delete(b"4").unwrap();
    let mut iter = store.scan(Bound::Unbounded, Bound::Unbounded).unwrap();
    assert_eq!(entries(&mut iter), pairs(vec![("1", "again"), ("3", "23333")]));
    let mut iter = store.scan(Bound::Included(b"2"), Bound::Included(b"4")).unwrap();
    assert_eq!(entries(&mut iter), pairs(vec![("3", "23333")]));
    // the cursor stays at the end
    iter.next().unwrap();
    iter.next().unwrap();
    assert!(!iter.is_valid());
}

#[test]
fn scan_shows_an_old_value_again_after_a_later_put() {
    let store = LsmStorage::open("dir").unwrap();
    store.delete(b"k").unwrap();
    store.sync().unwrap();
    store.put(b"k", b"back").unwrap();
    let mut iter = store.scan(Bound::Unbounded, Bound::Unbounded).unwrap();
    assert_eq!(entries(&mut iter), pairs(vec![("k", "back")]));
    assert_eq!(get(&store, "k"), Some("back".to_string()));
}

#[test]
fn scan_holds_the_first_entry_against_the_upper_bound() {
    let store = LsmStorage::open("dir").unwrap();
    store.put(b"z", b"1").unwrap();
    store.sync().unwrap();
    let iter = store.scan(Bound::Included(b"a"), Bound::Included(b"b")).unwrap();
    assert!(!iter.is_valid());
    store.put(b"y", b"2").unwrap();
    let iter = store.scan(Bound::Included(b"a"), Bound::Included(b"b")).unwrap();
    assert!(!iter.is_valid());
    let mut iter = store.scan(Bound::Included(b"a"), Bound::Included(b"y")).unwrap();
    assert_eq!(keys(&mut iter), ["y"]);
}

#[test]
fn scan_up_to_an_excluded_key_does_not_give_the_key() {
    let store = LsmStorage::open("dir").unwrap();
    store.put(b"b", b"2").unwrap();
    let iter = store.scan(Bound::Unbounded, Bound::Excluded(b"b")).unwrap();
    assert!(!iter.is_valid());
    store.sync().unwrap();
    let mut iter = store.scan(Bound::Unbounded, Bound::Excluded(b"b")).unwrap();
    assert!(!iter.is_valid());
    iter.next().unwrap();
    assert!(!iter.is_valid());
    let mut iter = store.scan(Bound::Unbounded, Bound::Included(b"b")).unwrap();
    assert_eq!(keys(&mut iter), ["b"]);
    // a deleted key at the start of the scan is passed over
    store.delete(b"a").unwrap();
    store.sync().unwrap();
    let mut iter = store.scan(Bound::Unbounded, Bound::Included(b"b")).unwrap();
    assert_eq!(keys(&mut iter), ["b"]);
    let iter = store.scan(Bound::Unbounded, Bound::Excluded(b"b")).unwrap();
    assert!(!iter.is_valid());
}

#[test]
fn get_in_the_tables_finds_the_key_or_nothing() {
    let store = LsmStorage::open("dir").unwrap();
    store.put(b"b", b"2").unwrap();
    store.delete(b"d").unwrap();
    store.sync().unwrap();
    assert_eq!(get(&store, "b"), Some("2".to_string()));
    // a key that was never written is absent, though a table holds a later key
    assert_eq!(get(&store, "a"), None);
    assert_eq!(get(&store, "c"), None);
    // a key that was deleted is absent, in a table as in a memtable
    assert_eq!(get(&store, "d"), None);
    assert_eq!(get(&store, "e"), None);
}

#[test]
fn deleted_key_stays_absent_after_sync() {
    let store = LsmStorage::open("dir").unwrap();
    store.put(b"a", b"1").unwrap();
    store.delete(b"a").unwrap();
    assert_eq!(get(&store, "a"), None);
    store.sync().unwrap();
    assert_eq!(get(&store, "a"), None);
    // an earlier table holds the value, a later one the deletion
    store.put(b"k", b"v").unwrap();
    store.sync().unwrap();
    store.delete(b"k").unwrap();
    store.sync().unwrap();
    assert_eq!(get(&store, "k"), None);
    store.put(b"k", b"w").unwrap();
    store.sync().unwrap();
    assert_eq!(get(&store, "k"), Some("w".to_string()));
}

#[test]
fn sync_writes_the_earliest_waiting_memtable() {
    let mut state = LsmStorageInner::create();
    state.put(b"a", b"1");
    let (first, id) = state.freeze();
    assert_eq!(id, 1);
    assert_eq!(first.get(b"a"), Some(b"1".to_vec()));
    state.put(b"a", b"2");
    state.put(b"b", b"2");
    // the memtable that has waited longest is the next to be written
    let (next, id) = state.freeze();
    assert_eq!(id, 1);
    assert_eq!(next.get(b"a"), Some(b"1".to_vec()));
    assert_eq!(next.get(b"b"), None);
    state.delete(b"b");
    state.sync(None, "dir/00001.sst").unwrap();
    assert_eq!(state.get(b"a").unwrap(), Some(b"2".to_vec()));
    assert_eq!(state.get(b"b").unwrap(), None);
    state.sync(None, "dir/00002.sst").unwrap();
    state.sync(None, "dir/00003.sst").unwrap();
    state.sync(None, "dir/00004.sst").unwrap();
    assert_eq!(state.get(b"a").unwrap(), Some(b"2".to_vec()));
    assert_eq!(state.get(b"b").unwrap(), None);
    let mut iter = state.scan(Bound::Unbounded, Bound::Unbounded).unwrap();
    assert_eq!(entries(&mut iter), pairs(vec![("a", "2")]));
}

#[test]
fn sync_keeps_every_value() {
    let store = LsmStorage::open("dir").unwrap();
    let key = |i: usize| format!("key{:05}", i);
    for round in 0..4usize {
        for i in (round..2000).step_by(round + 1) {
            store.put(key(i).as_bytes(), format!("{}-{}", round, i).as_bytes()).unwrap();
        }
        store.sync().unwrap();
    }
    for i in 0..2000usize {
        let round = (0..4usize).rev().find(|r| i >= *r && (i - r) % (r + 1) == 0).unwrap();
        assert_eq!(get(&store, &key(i)), Some(format!("{}-{}", round, i)));
    }
    let mut iter = store.scan(Bound::Included(b"key00010"), Bound::Excluded(b"key00020")).unwrap();
    let found = keys(&mut iter);
    assert_eq!(found.len(), 10);
    assert_eq!(found[0], "key00010");
    assert_eq!(found[9], "key00019");
}

#[test]
fn sync_of_an_empty_store() {
    let store = LsmStorage::open("dir").unwrap();
    store.sync().unwrap();
    assert_eq!(get(&store, "a"), None);
    let iter = store.scan(Bound::Unbounded, Bound::Unbounded).unwrap();
    assert!(!iter.is_valid());
    store.put(b"a", b"1").unwrap();
    store.sync().unwrap();
    assert_eq!(get(&store, "a"), Some("1".to_string()));
}

#[test]
fn tables_are_named_by_their_id() {
    let store = LsmStorage::open("some/dir").unwrap();
    assert_eq!(store.path_of_sst(1), "some/dir/00001.sst");
    assert_eq!(store.path_of_sst(0), "some/dir/00000.sst");
    assert_eq!(store.path_of_sst(42), "some/dir/00042.sst");
    assert_eq!(store.path_of_sst(99999), "some/dir/99999.sst");
    assert_eq!(store.path_of_sst(123456), "some/dir/123456.sst");
}

#[test]
fn state_syncs_in_one_step() {
    let mut state = LsmStorageInner::create();
    state.put(b"a", b"1");
    state.put(b"b", b"2");
    state.sync(None, "dir/00001.sst").unwrap();
    state.delete(b"a");
    state.sync(None, "dir/00002.sst").unwrap();
    state.put(b"c", b"3");
    assert_eq!(state.get(b"b").unwrap(), Some(b"2".to_vec()));
    assert_eq!(state.get(b"c").unwrap(), Some(b"3".to_vec()));
    let mut iter = state.scan(Bound::Unbounded, Bound::Unbounded).unwrap();
    assert_eq!(entries(&mut iter), pairs(vec![("b", "2"), ("c", "3")]));
    let (_, id) = state.freeze();
    assert_eq!(id, 3);
}

#[test]
fn state_syncs_step_by_step() {
    let mut state = LsmStorageInner::create();
    state.put(b"a", b"1");
    state.put(b"b", b"2");
    let (memtable, id) = state.freeze();
    assert_eq!(id, 1);
    state.put(b"c", b"3");
    let table = LsmStorageInner::build_table(&memtable, id, None, "dir/00001.sst").unwrap();
    assert_eq!(table.num_of_blocks(), 1);
    assert_eq!(table.block_metas[0].first_key, b"a");
    assert_eq!(table.validate(), Ok(()));
    state.delete(b"a");
    state.install(std::sync::Arc::new(table)).unwrap();
    let mut iter = state.scan(Bound::Unbounded, Bound::Unbounded).unwrap();
    assert_eq!(entries(&mut iter), pairs(vec![("b", "2"), ("c", "3")]));
    let (_, id) = state.freeze();
    assert_eq!(id, 2);
}

#[test]
fn store_is_shared_by_handles() {
    let store = std::sync::Arc::new(LsmStorage::open("dir").unwrap());
    let writer = store.clone();
    let reader = store.clone();
    for i in 0..300usize {
        let key = format!("{:04}", i);
        writer.put(key.as_bytes(), b"v").unwrap();
        if i % 50 == 49 {
            store.sync().unwrap();
        }
        assert_eq!(reader.get(key.as_bytes()).unwrap(), Some(b"v".to_vec()));
    }
    let mut iter = reader.scan(Bound::Unbounded, Bound::Unbounded).unwrap();
    writer.delete(b"0000").unwrap();
    // the cursor shows the store as it was when the scan began
    assert_eq!(keys(&mut iter).len(), 300);
    let mut iter = reader.scan(Bound::Unbounded, Bound::Unbounded).unwrap();
    assert_eq!(keys(&mut iter).len(), 299);
    assert_eq!(reader.get(b"0000").unwrap(), None);
    assert_eq!(reader.get(b"0001").unwrap(), Some(b"v".to_vec()));
}

#[test]
fn state_moves_a_memtable_to_the_tables() {
    let mut state = LsmStorageInner::create();
    state.put(b"a", b"1");
    let (frozen, id) = state.freeze();
    assert_eq!(id, 1);
    assert_eq!(frozen.get(b"a"), Some(b"1".to_vec()));
    // what waits to be written can be read
    assert_eq!(state.get(b"a").unwrap(), Some(b"1".to_vec()));
    state.put(b"a", b"2");
    assert_eq!(state.get(b"a").unwrap(), Some(b"2".to_vec()));
    state.delete(b"a");
    let mut builder = SsTableBuilder::new(4096);
    frozen.flush(&mut builder).unwrap();
    let table = builder.build(id, None, "00001.sst").unwrap();
    state.install(std::sync::Arc::new(table)).unwrap();
    assert_eq!(state.get(b"a").unwrap(), None);
    let (_, id) = state.freeze();
    assert_eq!(id, 2);
    assert_eq!(state.get(b"a").unwrap(), None);
}
