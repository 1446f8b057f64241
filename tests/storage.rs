use mini_lsm::keys::{key_equal, key_less, key_less_or_equal};
use mini_lsm::lsm_storage::LsmStorage;
use mini_lsm::memtable::{KeyBound, MemTable};
use mini_lsm::sstable::SsTableBuilder;
use mini_lsm::wal::{encode_record, replay};

#[test]
fn wal_record_layout() {
    let record = encode_record(b"k", b"v");
    let body = [1u8, 0, b'k', 1, 0, b'v'];
    let mut expected = body.to_vec();
    expected.extend_from_slice(&crc32fast::hash(&body).to_le_bytes());
    assert_eq!(record, expected);
    assert_eq!(record.len(), 10);
}

#[test]
fn memtable_last_writer_wins() {
    let mut m = MemTable::new(0);
    assert!(m.is_empty());
    m.put(b"k", b"v1");
    m.put(b"k", b"v2");
    assert_eq!(m.get(b"k"), Some(b"v2".to_vec()));
    assert_eq!(m.get(b"other"), None);
    assert_eq!(m.approximate_size(), 6);
    assert!(!m.is_empty());
}

#[test]
fn memtable_entries_are_ordered() {
    let mut m = MemTable::new(4);
    m.put(b"b", b"2");
    m.put(b"a", b"1");
    m.put(b"ab", b"3");
    let entries = m.entries();
    let keys: Vec<Vec<u8>> = entries.iter().map(|e| e.0.clone()).collect();
    assert_eq!(keys, vec![b"a".to_vec(), b"ab".to_vec(), b"b".to_vec()]);
    assert_eq!(m.id(), 4);
}

#[test]
fn freeze_trigger() {
    let mut storage = LsmStorage::open(32);
    let value = [7u8; 20];
    assert_eq!(storage.put(b"k1", &value), None);
    assert_eq!(storage.put(b"k2", &value), Some(1));
    assert_eq!(storage.state().imm_memtables.len(), 1);
    assert!(storage.state().memtable.is_empty());
    assert_eq!(storage.get(b"k1").unwrap(), Some(value.to_vec()));
}

#[test]
fn rotation_ids_increase() {
    let mut storage = LsmStorage::open(1);
    for i in 0..5u8 {
        assert_eq!(storage.put(&[b'k', i], b"vv"), Some(i as usize + 1));
    }
    let state = storage.state();
    let mut ids = vec![state.memtable.id()];
    ids.extend(state.imm_memtables.iter().map(|m| m.id()));
    assert_eq!(ids, vec![5, 4, 3, 2, 1, 0]);
}

fn storage_with_table(entries: &[(&[u8], &[u8])]) -> LsmStorage {
    let mut storage = LsmStorage::open(4);
    for (k, v) in entries {
        assert!(storage.put(k, v).is_none());
    }
    assert!(storage.put(b"zz-filler", b"0000").is_some());
    let (table, file) = storage.build_flush(4096).unwrap().unwrap();
    assert!(file.len() > 28);
    storage.install_flushed(table);
    assert_eq!(storage.state().imm_memtables.len(), 0);
    assert_eq!(storage.state().l0_sstables.len(), 1);
    assert!(storage.state().memtable.is_empty());
    storage
}

#[test]
fn ping_pong_read() {
    let mut storage = storage_with_table(&[(b"a", b"0")]);
    assert_eq!(storage.get(b"a").unwrap(), Some(b"0".to_vec()));
    assert_eq!(storage.put(b"a", b"1"), None);
    assert_eq!(storage.get(b"a").unwrap(), Some(b"1".to_vec()));
}

#[test]
fn delete_shadowing() {
    let mut storage = storage_with_table(&[(b"a", b"1")]);
    assert_eq!(storage.get(b"a").unwrap(), Some(b"1".to_vec()));
    storage.put(b"a", b"");
    assert_eq!(storage.get(b"a").unwrap(), None);
    assert_eq!(storage.get(b"missing").unwrap(), None);
}

#[test]
fn flush_with_nothing_immutable_is_none() {
    let mut storage = LsmStorage::open(1 << 20);
    storage.put(b"a", b"1");
    assert!(storage.build_flush(4096).unwrap().is_none());
    assert_eq!(storage.force_freeze_memtable(), None);
}

#[test]
fn key_order_is_lexicographic() {
    assert!(key_less(b"a", b"b"));
    assert!(key_less(b"a", b"ab"));
    assert!(!key_less(b"ab", b"a"));
    assert!(!key_less(b"a", b"a"));
    assert!(key_less(&[0x7f], &[0x80]));
    assert!(key_less_or_equal(b"a", b"a"));
    assert!(key_equal(b"abc", b"abc"));
    assert!(!key_equal(b"abc", b"abd"));
}

#[test]
fn delete_hides_value_in_memtable_and_table() {
    let mut storage = storage_with_table(&[(b"x", b"9")]);
    storage.put(b"y", b"8");
    storage.delete(b"x");
    storage.delete(b"y");
    assert_eq!(storage.get(b"x").unwrap(), None);
    assert_eq!(storage.get(b"y").unwrap(), None);
    assert_eq!(storage.get(b"zz-filler").unwrap(), Some(b"0000".to_vec()));
}

#[test]
fn immutable_memtables_are_read_newest_first() {
    let mut storage = LsmStorage::open(3);
    assert_eq!(storage.put(b"k", b"old"), Some(1));
    assert_eq!(storage.put(b"k", b"new"), Some(2));
    assert_eq!(storage.state().imm_memtables.len(), 2);
    assert_eq!(storage.get(b"k").unwrap(), Some(b"new".to_vec()));
}

#[test]
fn memtable_scan_respects_bounds() {
    let mut m = MemTable::new(0);
    for k in [&b"a"[..], b"b", b"c", b"d"] {
        m.put(k, k);
    }
    let collect = |lower: KeyBound, upper: KeyBound| {
        let mut it = m.scan(&lower, &upper);
        let mut keys = Vec::new();
        while let Some((k, v)) = it.next() {
            assert_eq!(k, v);
            keys.push(k);
        }
        assert!(it.next().is_none());
        keys
    };
    assert_eq!(
        collect(KeyBound::Included(b"b".to_vec()), KeyBound::Excluded(b"d".to_vec())),
        vec![b"b".to_vec(), b"c".to_vec()]
    );
    assert_eq!(
        collect(KeyBound::Excluded(b"a".to_vec()), KeyBound::Included(b"d".to_vec())),
        vec![b"b".to_vec(), b"c".to_vec(), b"d".to_vec()]
    );
    assert_eq!(collect(KeyBound::Unbounded, KeyBound::Unbounded).len(), 4);
    assert!(collect(KeyBound::Included(b"x".to_vec()), KeyBound::Unbounded).is_empty());
}

#[test]
fn memtable_size_counts_key_and_value_bytes() {
    let mut m = MemTable::new(0);
    m.put(b"abc", b"12345");
    m.put(b"abc", b"");
    assert_eq!(m.approximate_size(), 11);
    assert_eq!(m.get(b"abc"), Some(Vec::new()));
}

#[test]
fn memtable_flush_feeds_builder_in_order() {
    let mut m = MemTable::new(0);
    m.put(b"b", b"2");
    m.put(b"a", b"1");
    let mut builder = SsTableBuilder::new(4096);
    m.flush(&mut builder).unwrap();
    let (table, _) = builder.build(5).unwrap();
    assert_eq!(table.block_meta[0].first_key, b"a".to_vec());
    assert_eq!(table.get(b"a").unwrap(), Some(b"1".to_vec()));
    assert_eq!(table.get(b"b").unwrap(), Some(b"2".to_vec()));
}

#[test]
fn wal_replay_round_trip() {
    let mut log = encode_record(b"k1", b"v1");
    log.extend(encode_record(b"k2", b""));
    log.extend(encode_record(b"key3", b"value3"));
    let records = replay(&log);
    assert_eq!(
        records,
        vec![
            (b"k1".to_vec(), b"v1".to_vec()),
            (b"k2".to_vec(), Vec::new()),
            (b"key3".to_vec(), b"value3".to_vec()),
        ]
    );
}

#[test]
fn wal_replay_tolerates_torn_tail() {
    let mut log = encode_record(b"a", b"1");
    let second = encode_record(b"b", b"2");
    log.extend_from_slice(&second[..second.len() - 1]);
    assert_eq!(replay(&log), vec![(b"a".to_vec(), b"1".to_vec())]);
    assert!(replay(&[]).is_empty());
    assert!(replay(&[1]).is_empty());
}

#[test]
fn wal_replay_stops_at_checksum_mismatch() {
    let mut log = encode_record(b"a", b"1");
    let mut bad = encode_record(b"b", b"2");
    bad[3] ^= 0x01;
    log.extend(bad);
    log.extend(encode_record(b"c", b"3"));
    assert_eq!(replay(&log), vec![(b"a".to_vec(), b"1".to_vec())]);
}

#[test]
fn storage_scan_merges_tiers_and_hides_tombstones() {
    let mut storage = LsmStorage::open(8);
    for (k, v) in [(&b"a"[..], &b"1"[..]), (b"b", b"2"), (b"c", b"3")] {
        assert!(storage.put(k, v).is_none());
    }
    assert!(storage.put(b"zz-filler", b"0000").is_some());
    let (table, _) = storage.build_flush(4096).unwrap().unwrap();
    storage.install_flushed(table);
    storage.put(b"b", b"");
    storage.put(b"c", b"30");
    storage.put(b"d", b"4");
    let all = storage.scan(&KeyBound::Unbounded, &KeyBound::Unbounded).unwrap();
    assert_eq!(
        all,
        vec![
            (b"a".to_vec(), b"1".to_vec()),
            (b"c".to_vec(), b"30".to_vec()),
            (b"d".to_vec(), b"4".to_vec()),
            (b"zz-filler".to_vec(), b"0000".to_vec()),
        ]
    );
    let some = storage
        .scan(&KeyBound::Excluded(b"a".to_vec()), &KeyBound::Included(b"d".to_vec()))
        .unwrap();
    assert_eq!(
        some,
        vec![(b"c".to_vec(), b"30".to_vec()), (b"d".to_vec(), b"4".to_vec())]
    );
}

#[test]
fn storage_scan_of_empty_engine_is_empty() {
    let storage = LsmStorage::open(1 << 20);
    assert!(storage
        .scan(&KeyBound::Unbounded, &KeyBound::Unbounded)
        .unwrap()
        .is_empty());
}
