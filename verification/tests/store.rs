use lsm_storage::format::{read_entry, write_entry, ReadOutcome};
use lsm_storage::memtable::MemTable;
use lsm_storage::sstable::SSTable;
use lsm_storage::storage::{file_name_for_id, segment_prefix_vec, wal_prefix_vec, Storage};
use lsm_storage::{Stored, StoreError};

fn b(s: &str) -> Vec<u8> {
    s.as_bytes().to_vec()
}

/// Encode a list of records as one byte stream, the way a sorted table
/// or a write-ahead log holds them.
fn encode_records(records: &[(Vec<u8>, Stored)]) -> Vec<u8> {
    let mut out = Vec::new();
    for (key, stored) in records {
        write_entry(&mut out, key, stored);
    }
    out
}

fn inject_rows(storage: &mut Storage, range: std::ops::Range<usize>) {
    for i in range {
        let k = format!("key-{}", i);
        let v = format!("value-{}", i);
        storage.insert(b(&k), b(&v));
    }
}

fn drain_flushes(storage: &mut Storage) {
    while storage.flush_oldest().is_some() {}
}

/// The file listings a storage would leave on disk: one write-ahead log
/// per live in-memory table, one file per sorted table.
fn disk_listing(storage: &Storage) -> (Vec<(Vec<u8>, Vec<u8>)>, Vec<(Vec<u8>, Vec<u8>)>) {
    let seg_prefix = segment_prefix_vec();
    let wal_prefix = wal_prefix_vec();
    let mut segments = Vec::new();
    for t in storage
        .engine
        .sstables1
        .iter()
        .chain(storage.engine.sstables0.iter())
    {
        segments.push((file_name_for_id(&seg_prefix, t.id), t.data.clone()));
    }
    let mut wals = Vec::new();
    for m in &storage.engine.memtables {
        wals.push((file_name_for_id(&wal_prefix, m.id), m.wal.clone()));
    }
    let active = &storage.engine.active_memtable;
    wals.push((file_name_for_id(&wal_prefix, active.id), active.wal.clone()));
    (segments, wals)
}

fn reopen(storage: &Storage) -> Storage {
    let (segments, wals) = disk_listing(storage);
    Storage::builder().build(&segments, &wals).unwrap()
}

// --- the entry codec ---

#[test]
fn read_entry_returns_none_when_file_ends() {
    let bytes = encode_records(&[(b("key-1"), Stored::Value(b("value-1")))]);

    let first = read_entry(&bytes, 0);
    let next = match first {
        ReadOutcome::Entry(key, stored, next) => {
            assert_eq!(key, b("key-1"));
            assert_eq!(stored, Stored::Value(b("value-1")));
            next
        }
        other => panic!("expected a record, got {:?}", other),
    };

    match read_entry(&bytes, next) {
        ReadOutcome::End => {}
        other => panic!("expected a clean end of stream, got {:?}", other),
    }
}

#[test]
fn encoding_is_fixed_and_byte_exact() {
    let mut out = Vec::new();
    write_entry(&mut out, &b("a"), &Stored::Value(b("x")));
    // 8-byte length of "a", "a", value tag, 8-byte length of "x", "x".
    assert_eq!(
        out,
        vec![1, 0, 0, 0, 0, 0, 0, 0, 97, 1, 1, 0, 0, 0, 0, 0, 0, 0, 120]
    );
    assert_eq!(lsm_storage::format::entry_size(&b("a"), &Stored::Value(b("x"))), 19);

    let mut tomb = Vec::new();
    write_entry(&mut tomb, &b("a"), &Stored::Tombstone);
    assert_eq!(tomb, vec![1, 0, 0, 0, 0, 0, 0, 0, 97, 0]);
    assert_eq!(lsm_storage::format::entry_size(&b("a"), &Stored::Tombstone), 10);
}

#[test]
fn torn_record_reads_as_corrupt() {
    let mut bytes = encode_records(&[(b("k"), Stored::Value(b("v")))]);
    let whole = bytes.len();
    bytes.truncate(whole - 1);
    match read_entry(&bytes, 0) {
        ReadOutcome::Corrupt => {}
        other => panic!("expected a torn record, got {:?}", other),
    }
}

// --- the in-memory table ---

#[test]
fn get_should_see_inserted_entries() {
    let mut memtable = MemTable::new(0);

    memtable.insert(b("key1"), b("value1"));

    assert_eq!(memtable.get(&b("key2")), None);
    assert_eq!(memtable.get(&b("key1")), Some(b("value1")));
}

#[test]
fn get_should_not_see_deleted_entries() {
    let mut memtable = MemTable::new(0);

    memtable.remove(b("key1"));
    memtable.insert(b("key2"), b("value2"));
    memtable.remove(b("key2"));

    assert_eq!(memtable.get(&b("key1")), None);
    assert_eq!(memtable.get(&b("key2")), None);
}

#[test]
fn recover_should_yield_the_same_memtable() {
    let mut memtable = MemTable::new(0);

    memtable.insert(b("key1"), b("value1"));
    memtable.insert(b("key2"), b("value2"));

    let recovered = MemTable::recover(0, memtable.wal.clone());

    assert_eq!(memtable.entries, recovered.entries);
}

#[test]
fn recover_should_load_from_corrupted_wal() {
    let mut memtable = MemTable::new(0);

    memtable.insert(b("key1"), b("value1"));
    memtable.insert(b("key2"), b("value2"));
    memtable.insert(b("key3"), b("value3"));
    memtable.remove(b("key1"));

    // A torn tail: the first bytes of a record that never finished.
    let mut corrupted = memtable.wal.clone();
    corrupted.extend_from_slice(&[0xff; 16]);

    let recovered = MemTable::recover(0, corrupted);
    assert_eq!(memtable.entries, recovered.entries);
}

#[test]
fn recover_should_truncate_corrupted_log() {
    let mut memtable = MemTable::new(0);

    memtable.insert(b("key1"), b("value1"));
    memtable.insert(b("key2"), b("value2"));
    memtable.insert(b("key3"), b("value3"));

    let wal_length = memtable.wal.len();

    let mut corrupted = memtable.wal.clone();
    corrupted.extend_from_slice(&[0xff; 16]);

    let recovered = MemTable::recover(0, corrupted);
    assert_eq!(wal_length, recovered.wal.len());
}

#[test]
fn persist_should_store_all_elements_in_order() {
    let mut memtable = MemTable::new(0);
    memtable.insert(b("c"), b("value1"));
    memtable.insert(b("a"), b("value3"));
    memtable.remove(b("a"));
    memtable.insert(b("b"), b("value2"));

    let bytes = memtable.persist();

    let next = match read_entry(&bytes, 0) {
        ReadOutcome::Entry(key, stored, next) => {
            assert_eq!(key, b("a"));
            assert_eq!(stored, Stored::Tombstone);
            next
        }
        other => panic!("expected a record, got {:?}", other),
    };
    let next = match read_entry(&bytes, next) {
        ReadOutcome::Entry(key, stored, next) => {
            assert_eq!(key, b("b"));
            assert_eq!(stored, Stored::Value(b("value2")));
            next
        }
        other => panic!("expected a record, got {:?}", other),
    };
    match read_entry(&bytes, next) {
        ReadOutcome::Entry(key, stored, _) => {
            assert_eq!(key, b("c"));
            assert_eq!(stored, Stored::Value(b("value1")));
        }
        other => panic!("expected a record, got {:?}", other),
    }
}

#[test]
fn persisting_memtable_should_delete_wal() {
    // A store with one frozen table (log id 0) and an empty active one
    // (log id 1): flushing reports log 0 as the one to unlink.
    let mut frozen = MemTable::new(0);
    frozen.insert(b("c"), b("value1"));
    let wal_prefix = wal_prefix_vec();
    let wals = vec![
        (file_name_for_id(&wal_prefix, 0), frozen.wal.clone()),
        (file_name_for_id(&wal_prefix, 1), Vec::new()),
    ];
    let no_segments: Vec<(Vec<u8>, Vec<u8>)> = Vec::new();
    let mut storage = Storage::builder().build(&no_segments, &wals).unwrap();
    assert_eq!(storage.engine.memtables.len(), 1);

    let unlinked = storage.flush_oldest();

    assert_eq!(unlinked, Some(0));
    assert_eq!(storage.engine.memtables.len(), 0);
    assert_eq!(storage.flush_oldest(), None);
}

// --- the sorted table ---

#[test]
fn constructor_should_load_sstable_correctly() {
    let contents = vec![
        (b("key-1"), Stored::Value(b("value-1"))),
        (b("key-2"), Stored::Value(b("value-2"))),
        (b("key-3"), Stored::Value(b("value-3"))),
    ];
    let bytes = encode_records(&contents);

    let sstable = SSTable::new(1, bytes).unwrap();

    assert_eq!(contents.len(), 3);
    assert_eq!(sstable.index.len(), 3);
    for (i, (key, stored)) in contents.iter().enumerate() {
        assert_eq!(&sstable.index[i].0, key);
        let offset = sstable.index[i].1;
        match read_entry(&sstable.data, offset) {
            ReadOutcome::Entry(k, s, _) => {
                assert_eq!(&k, key);
                assert_eq!(&s, stored);
            }
            other => panic!("expected a record at the indexed offset, got {:?}", other),
        }
    }
}

#[test]
fn get_should_return_expected_value() {
    let bytes = encode_records(&[
        (b("key-1"), Stored::Value(b("value-1"))),
        (b("key-2"), Stored::Value(b("value-2"))),
        (b("key-3"), Stored::Value(b("value-3"))),
    ]);
    let sstable = SSTable::new(1, bytes).unwrap();

    let value = sstable.get(&b("key-1"));
    assert!(value.is_some());
    assert_eq!(String::from_utf8(value.unwrap()).unwrap(), "value-1");
    assert_eq!(sstable.get(&b("key-9")), None);
}

#[test]
fn merging_should_write_in_order_and_merge_all_elements() {
    let old_sstable = SSTable::new(
        1,
        encode_records(&[
            (b("key-1"), Stored::Value(b("value-1"))),
            (b("key-2"), Stored::Value(b("value-2"))),
            (b("key-3"), Stored::Value(b("value-3"))),
            (b("key-5"), Stored::Tombstone),
        ]),
    )
    .unwrap();
    let new_sstable = SSTable::new(
        2,
        encode_records(&[
            (b("key-1"), Stored::Value(b("value-5"))),
            (b("key-3"), Stored::Tombstone),
            (b("key-4"), Stored::Value(b("value-4"))),
        ]),
    )
    .unwrap();

    let merged = SSTable::merge(3, &old_sstable, &new_sstable);

    let expected = vec![
        (b("key-1"), Stored::Value(b("value-5"))),
        (b("key-2"), Stored::Value(b("value-2"))),
        (b("key-3"), Stored::Tombstone),
        (b("key-4"), Stored::Value(b("value-4"))),
        (b("key-5"), Stored::Tombstone),
    ];
    assert_eq!(merged.scan(), expected);
}

#[test]
fn opening_garbage_fails_and_unsorted_tables_are_refused() {
    assert_eq!(SSTable::new(0, vec![0xff; 7]).err(), Some(StoreError::Corrupt));

    let unsorted = encode_records(&[
        (b("b"), Stored::Value(b("1"))),
        (b("a"), Stored::Value(b("2"))),
    ]);
    assert_eq!(SSTable::new(0, unsorted).err(), Some(StoreError::Corrupt));

    let duplicated = encode_records(&[
        (b("a"), Stored::Value(b("1"))),
        (b("a"), Stored::Value(b("2"))),
    ]);
    assert_eq!(SSTable::new(0, duplicated).err(), Some(StoreError::Corrupt));
}

// --- the storage facade ---

#[test]
fn memtables_are_converted_to_sstables_when_threshold_is_reached() {
    let mut storage = Storage::new();

    let number_of_rows = storage.config.threshold * 2;
    inject_rows(&mut storage, 0..number_of_rows);
    drain_flushes(&mut storage);

    assert_eq!(storage.engine.sstables0.len(), 2);
    assert_eq!(storage.engine.active_memtable.len(), 0);
}

#[test]
fn engine_loads_sstables_and_wal_when_it_starts() {
    let mut storage = Storage::new();

    let number_of_rows = storage.config.threshold * 2;
    inject_rows(&mut storage, 0..number_of_rows);
    drain_flushes(&mut storage);

    let storage = reopen(&storage);

    assert_eq!(storage.engine.sstables0.len(), 2);
    assert_eq!(storage.engine.active_memtable.len(), 0);
}

#[test]
fn reads_from_memtable_and_sstable() {
    let mut storage = Storage::new();
    let threshold = storage.config.threshold;

    let v1 = storage.read(&b("key-500"));
    let v2 = storage.read(&b("key-1500"));
    assert_eq!(None, v1);
    assert_eq!(None, v2);

    inject_rows(&mut storage, 0..threshold);

    let v1 = String::from_utf8(storage.read(&b("key-500")).unwrap()).unwrap();
    let v2 = storage.read(&b("key-1500"));
    assert_eq!("value-500", v1);
    assert_eq!(None, v2);

    inject_rows(&mut storage, threshold..threshold * 2);

    let v1 = String::from_utf8(storage.read(&b("key-500")).unwrap()).unwrap();
    let v2 = String::from_utf8(storage.read(&b("key-1500")).unwrap()).unwrap();
    assert_eq!("value-500", v1);
    assert_eq!("value-1500", v2);
}

// --- the compactor ---

#[test]
fn compaction_in_l0_changes_all_files_in_l1() {
    let mut storage = Storage::new();
    let threshold = storage.config.threshold;
    let expected_sstables = 5;

    inject_rows(&mut storage, 0..threshold * expected_sstables);
    drain_flushes(&mut storage);
    assert_eq!(storage.engine.sstables0.len(), expected_sstables);

    storage.compact();

    assert_eq!(storage.engine.sstables0.len(), 0);
    assert_eq!(storage.engine.sstables1.len(), 1);
    let first_generation = storage.engine.sstables1[0].id;

    inject_rows(&mut storage, 0..threshold * expected_sstables);
    drain_flushes(&mut storage);
    storage.compact();

    assert_eq!(storage.engine.sstables0.len(), 0);
    assert_eq!(storage.engine.sstables1.len(), 1);
    assert_ne!(storage.engine.sstables1[0].id, first_generation);
}

#[test]
fn compacted_data_after_l0_is_broken_into_ordered_files_with_capped_size() {}

#[test]
fn compaction_preserves_reads_and_drops_tombstones() {
    let mut storage = Storage::new();
    storage.insert(b("kept"), b("value"));
    storage.remove(b("gone"));
    // Freeze and flush what we have, then merge it into the deep tier.
    let threshold = storage.config.threshold;
    inject_rows(&mut storage, 0..threshold);
    drain_flushes(&mut storage);
    storage.compact();

    assert_eq!(storage.read(&b("kept")), Some(b("value")));
    assert_eq!(storage.read(&b("gone")), None);
    // The deep tier holds no tombstone: nothing older is left to shadow.
    for (_key, stored) in storage.engine.sstables1[0].scan() {
        assert_ne!(stored, Stored::Tombstone);
    }
}

// --- end-to-end scenarios ---

#[test]
fn basic_round_trip() {
    let mut storage = Storage::new();
    storage.insert(b("k"), b("v"));
    assert_eq!(storage.read(&b("k")), Some(b("v")));
    assert_eq!(storage.read(&b("missing")), None);
}

#[test]
fn overwrite_returns_latest_value() {
    let mut storage = Storage::new();
    storage.insert(b("a"), b("1"));
    storage.insert(b("a"), b("2"));
    assert_eq!(storage.read(&b("a")), Some(b("2")));
}

#[test]
fn tombstone_survives_reopen() {
    let mut storage = Storage::new();
    storage.insert(b("a"), b("1"));
    storage.remove(b("a"));
    assert_eq!(storage.read(&b("a")), None);

    let reopened = reopen(&storage);
    assert_eq!(reopened.read(&b("a")), None);
}

#[test]
fn flush_and_recover_across_reopen() {
    let mut storage = Storage::new();
    inject_rows(&mut storage, 0..2048);
    drain_flushes(&mut storage);
    assert_eq!(storage.engine.sstables0.len(), 2);
    assert_eq!(storage.engine.active_memtable.len(), 0);

    let reopened = reopen(&storage);
    assert_eq!(reopened.read(&b("key-500")), Some(b("value-500")));
    assert_eq!(reopened.read(&b("key-1500")), Some(b("value-1500")));
}

#[test]
fn unflushed_writes_survive_reopen() {
    let mut storage = Storage::new();
    storage.insert(b("a"), b("1"));
    storage.insert(b("b"), b("2"));
    storage.remove(b("a"));

    let reopened = reopen(&storage);
    assert_eq!(reopened.read(&b("a")), None);
    assert_eq!(reopened.read(&b("b")), Some(b("2")));
    assert_eq!(reopened.read(&b("c")), None);
}

#[test]
fn read_prefers_newest_layer() {
    let mut storage = Storage::new();
    // An old generation with one value, flushed down to a sorted table.
    storage.insert(b("a"), b("old"));
    let threshold = storage.config.threshold;
    inject_rows(&mut storage, 0..threshold);
    drain_flushes(&mut storage);
    assert!(storage.engine.sstables0.len() >= 1);

    // A newer write in the active table shadows the flushed one.
    storage.insert(b("a"), b("new"));
    assert_eq!(storage.read(&b("a")), Some(b("new")));

    // A tombstone in the newest layer hides the older value outright.
    storage.remove(b("a"));
    assert_eq!(storage.read(&b("a")), None);
}

#[test]
fn empty_keys_and_values_round_trip() {
    let mut storage = Storage::new();
    storage.insert(b(""), b("empty-key"));
    storage.insert(b("empty-value"), b(""));
    assert_eq!(storage.read(&b("")), Some(b("empty-key")));
    assert_eq!(storage.read(&b("empty-value")), Some(b("")));

    let reopened = reopen(&storage);
    assert_eq!(reopened.read(&b("")), Some(b("empty-key")));
    assert_eq!(reopened.read(&b("empty-value")), Some(b("")));
}

// --- rebuilding from directory listings ---

#[test]
fn malformed_filenames_are_fatal_and_foreign_files_ignored() {
    let segments = vec![(b("sstable-abc"), Vec::new())];
    let no_wals: Vec<(Vec<u8>, Vec<u8>)> = Vec::new();
    let r = Storage::builder().build(&segments, &no_wals);
    assert_eq!(r.err(), Some(StoreError::BadFilename));

    // The writer lock and other files do not carry the prefix and dash:
    // they are ignored.
    let segments = vec![(b("lock"), Vec::new()), (b("unrelated"), b("data"))];
    let no_wals: Vec<(Vec<u8>, Vec<u8>)> = Vec::new();
    let r = Storage::builder().build(&segments, &no_wals);
    assert!(r.is_ok());
}

#[test]
fn duplicate_ids_are_fatal() {
    let bytes = encode_records(&[(b("a"), Stored::Value(b("1")))]);
    let segments = vec![(b("sstable-1"), bytes.clone()), (b("sstable-01"), bytes)];
    let no_wals: Vec<(Vec<u8>, Vec<u8>)> = Vec::new();
    let r = Storage::builder().build(&segments, &no_wals);
    assert_eq!(r.err(), Some(StoreError::DuplicateId));
}

#[test]
fn torn_sstable_files_are_skipped_on_open() {
    let good = encode_records(&[(b("a"), Stored::Value(b("1")))]);
    let mut torn = good.clone();
    torn.truncate(good.len() - 1);
    let segments = vec![(b("sstable-0"), torn), (b("sstable-1"), good)];
    let no_wals: Vec<(Vec<u8>, Vec<u8>)> = Vec::new();
    let storage = Storage::builder().build(&segments, &no_wals).unwrap();
    assert_eq!(storage.engine.sstables0.len(), 1);
    assert_eq!(storage.engine.sstables0[0].id, 1);
    assert_eq!(storage.read(&b("a")), Some(b("1")));
}

#[test]
fn filenames_carry_their_ids() {
    let seg_prefix = segment_prefix_vec();
    let name = file_name_for_id(&seg_prefix, 42);
    assert_eq!(name, b("sstable-42"));

    match lsm_storage::storage::parse_file_id(&name, &seg_prefix) {
        lsm_storage::storage::ParsedName::Id(v) => assert_eq!(v, 42),
        other => panic!("expected an id, got a different parse: {:?}", other),
    }

    let wal_prefix = wal_prefix_vec();
    assert_eq!(file_name_for_id(&wal_prefix, 0), b("write-ahead-log-0"));
}
