use mini_lsm::block::Block;
use mini_lsm::bloom::Bloom;
use mini_lsm::error::LsmError;
use mini_lsm::sstable::{Footer, SsTable, SsTableBuilder, FOOTER_SIZE};

fn build_table(entries: &[(&[u8], &[u8])], block_size: usize) -> (SsTable, Vec<u8>) {
    let mut builder = SsTableBuilder::new(block_size);
    for (k, v) in entries {
        builder.add(k, v).expect("add");
    }
    builder.build(1).expect("build sstable")
}

#[test]
fn test_sstable_footer_round_trip() {
    let footer = Footer::new(123, 1, 2, 3);
    let encoded = footer.encode();
    let decoded = Footer::decode(&encoded).expect("footer decode");
    assert_eq!(decoded.file_size, 123);
    assert_eq!(decoded.data_checksum, 1);
    assert_eq!(decoded.index_checksum, 2);
    assert_eq!(decoded.bloom_checksum, 3);
}

#[test]
fn footer_layout_is_little_endian() {
    let footer = Footer::new(0x0102030405060708, 0x11223344, 0x55667788, 0x99aabbcc);
    let encoded = footer.encode();
    assert_eq!(
        encoded,
        vec![
            8, 7, 6, 5, 4, 3, 2, 1, 0x44, 0x33, 0x22, 0x11, 0x88, 0x77, 0x66, 0x55, 0xcc, 0xbb,
            0xaa, 0x99
        ]
    );
    assert_eq!(Footer::decode(&encoded).unwrap(), footer);
}

#[test]
fn footer_decode_rejects_wrong_length() {
    assert!(matches!(Footer::decode(&[0u8; 19]), Err(LsmError::Format(_))));
    assert!(matches!(Footer::decode(&[0u8; 21]), Err(LsmError::Format(_))));
}

#[test]
fn test_bloom_filter_round_trip() {
    let keys = vec![b"alpha".to_vec(), b"beta".to_vec()];
    let bloom = Bloom::build_from_keys(&keys, 10);
    let mut encoded = Vec::new();
    bloom.encode(&mut encoded);
    let decoded = Bloom::decode(&encoded).expect("bloom decode");
    assert!(decoded.may_contain(b"alpha"));
    assert!(decoded.may_contain(b"beta"));
}

#[test]
fn test_builder_writes_index_and_footer() {
    let mut builder = SsTableBuilder::new(64);
    builder.add(b"apple", b"1").expect("add apple");
    builder.add(b"banana", b"2").expect("add banana");

    let (table, file) = builder.build(1).expect("build sstable");

    assert_eq!(table.block_meta.len(), 1);
    assert_eq!(table.block_meta[0].first_key, b"apple".to_vec());

    let file_size = file.len() as u64;
    let footer_bytes = &file[file.len() - FOOTER_SIZE..];
    let footer = Footer::decode(footer_bytes).expect("decode footer");
    assert_eq!(footer.file_size, file_size);

    let index_start = table.index_offset as usize;
    let index_bytes = &file[index_start..index_start + table.index_len as usize];
    let index_block = Block::decode(index_bytes);
    let (first_key, offset_bytes) = index_block.get_entry(0);
    assert_eq!(first_key, b"apple");
    assert_eq!(offset_bytes.len(), 4);

    let data_bytes = &file[..table.index_offset as usize];
    assert_eq!(footer.data_checksum, crc32fast::hash(data_bytes));

    let bloom_start = table.bloom_offset as usize;
    let bloom_bytes = &file[bloom_start..bloom_start + table.bloom_len as usize];
    assert_eq!(footer.index_checksum, crc32fast::hash(index_bytes));
    assert_eq!(footer.bloom_checksum, crc32fast::hash(bloom_bytes));
}

#[test]
fn sst_file_carries_region_lengths_before_footer() {
    let (table, file) = build_table(&[(b"apple", b"1"), (b"banana", b"2")], 64);
    let n = file.len();
    let bloom_len = u32::from_le_bytes(file[n - 28..n - 24].try_into().unwrap());
    let index_len = u32::from_le_bytes(file[n - 24..n - 20].try_into().unwrap());
    assert_eq!(bloom_len as u64, table.bloom_len);
    assert_eq!(index_len as u64, table.index_len);
    assert_eq!(
        n as u64,
        table.index_offset + table.index_len + table.bloom_len + 8 + FOOTER_SIZE as u64
    );
    assert_eq!(table.bloom_offset, table.index_offset + table.index_len);
}

#[test]
fn sst_get_finds_every_written_key() {
    let entries: Vec<(Vec<u8>, Vec<u8>)> = (0..300u32)
        .map(|i| (format!("key{:05}", i).into_bytes(), format!("v{}", i).into_bytes()))
        .collect();
    let mut builder = SsTableBuilder::new(128);
    for (k, v) in &entries {
        builder.add(k, v).expect("add");
    }
    let (_, file) = builder.build(9).expect("build");
    let table = SsTable::open(9, &file).expect("open");
    assert!(table.block_meta.len() > 1);
    for (k, v) in &entries {
        assert_eq!(table.get(k).expect("get"), Some(v.clone()));
    }
    assert_eq!(table.get(b"key00000x").expect("get"), None);
    assert_eq!(table.get(b"a").expect("get"), None);
    assert_eq!(table.get(b"zzz").expect("get"), None);
}

#[test]
fn sst_get_returns_tombstone_as_empty_value() {
    let (table, _) = build_table(&[(b"a", b""), (b"b", b"2")], 4096);
    assert_eq!(table.get(b"a").unwrap(), Some(Vec::new()));
    assert_eq!(table.get(b"b").unwrap(), Some(b"2".to_vec()));
}

#[test]
fn block_boundary_scenario() {
    let (table, _) = build_table(&[(b"apple", b"1"), (b"banana", b"2")], 64);
    assert_eq!(table.block_meta.len(), 1);
    assert_eq!(table.block_meta[0].first_key, b"apple".to_vec());
    assert_eq!(table.block_meta[0].offset, 0);
}

#[test]
fn small_blocks_split_and_index_offsets_ascend() {
    let (table, _) = build_table(&[(b"a", b"1"), (b"b", b"2"), (b"c", b"3")], 16);
    assert_eq!(table.block_meta.len(), 3);
    assert_eq!(table.block_meta[1].first_key, b"b".to_vec());
    assert!(table.block_meta[0].offset < table.block_meta[1].offset);
    assert!(table.block_meta[1].offset < table.block_meta[2].offset);
}

#[test]
fn open_accepts_built_file() {
    let (built, file) = build_table(&[(b"apple", b"1"), (b"banana", b"2")], 64);
    let table = SsTable::open(1, &file).expect("open");
    assert_eq!(table.footer, built.footer);
    assert_eq!(table.data, built.data);
    assert_eq!(table.index_offset, built.index_offset);
    assert_eq!(table.bloom_len, built.bloom_len);
    assert_eq!(table.block_meta.len(), 1);
    assert_eq!(table.block_meta[0].first_key, b"apple".to_vec());
    assert_eq!(table.get(b"banana").unwrap(), Some(b"2".to_vec()));
}

#[test]
fn open_detects_flipped_bits_in_every_region() {
    let (table, file) = build_table(&[(b"apple", b"1"), (b"banana", b"2")], 64);
    let regions = [
        (0usize, table.index_offset as usize),
        (table.index_offset as usize, table.bloom_offset as usize),
        (table.bloom_offset as usize, (table.bloom_offset + table.bloom_len) as usize),
    ];
    for (start, end) in regions {
        for pos in start..end {
            for bit in 0..8 {
                let mut corrupt = file.clone();
                corrupt[pos] ^= 1 << bit;
                match SsTable::open(1, &corrupt) {
                    Err(LsmError::ChecksumMismatch { expected, actual }) => {
                        assert_ne!(expected, actual)
                    }
                    other => panic!("expected a checksum mismatch, got {:?}", other.err()),
                }
            }
        }
    }
}

#[test]
fn open_rejects_short_or_resized_files() {
    assert!(matches!(SsTable::open(1, &[0u8; 27]), Err(LsmError::Format(_))));
    let (_, mut file) = build_table(&[(b"k", b"v")], 64);
    file.insert(0, 0);
    assert!(matches!(SsTable::open(1, &file), Err(LsmError::Format(_))));
}

#[test]
fn bloom_has_no_false_negatives_for_random_keys() {
    let mut state: u64 = 0x9e3779b97f4a7c15;
    let mut keys: Vec<Vec<u8>> = Vec::new();
    for _ in 0..10_000 {
        state ^= state << 13;
        state ^= state >> 7;
        state ^= state << 17;
        let len = 1 + (state % 16) as usize;
        keys.push(state.to_le_bytes().iter().cycle().take(len).copied().collect());
    }
    keys.sort();
    keys.dedup();
    let mut builder = SsTableBuilder::new(4096);
    for k in &keys {
        builder.add(k, b"v").expect("add");
    }
    let (table, _) = builder.build(3).expect("build");
    assert_eq!(table.bloom.k, 6);
    for k in &keys {
        assert!(table.bloom.may_contain(k));
    }
}

#[test]
fn bloom_sizes_and_probe_count() {
    let keys: Vec<Vec<u8>> = (0..100u32).map(|i| i.to_le_bytes().to_vec()).collect();
    let bloom = Bloom::build_from_keys(&keys, 10);
    assert_eq!(bloom.filter.len(), 125);
    assert_eq!(bloom.k, 6);
    let few = Bloom::build_from_keys(&keys[..2], 10);
    assert_eq!(few.filter.len(), 8);
    assert_eq!(Bloom::build_from_keys(&keys, 1).k, 1);
    assert_eq!(Bloom::build_from_keys(&keys, 100).k, 30);
}

#[test]
fn bloom_decode_rejects_malformed_input() {
    assert!(matches!(Bloom::decode(&[]), Err(LsmError::Format(_))));
    assert!(matches!(Bloom::decode(&[0u8; 8]), Err(LsmError::Format(_))));
    assert!(matches!(Bloom::decode(&[0u8; 9]), Err(LsmError::Format(_))));
    let mut bytes = vec![0u8; 8];
    bytes.push(31);
    assert!(matches!(Bloom::decode(&bytes), Err(LsmError::Format(_))));
    bytes[8] = 3;
    let bloom = Bloom::decode(&bytes).unwrap();
    assert_eq!(bloom.k, 3);
    assert!(!bloom.may_contain(b"anything"));
}

#[test]
fn bloom_handles_high_byte_keys_of_every_length() {
    let mut keys: Vec<Vec<u8>> = (1..=70usize).map(|n| vec![0xffu8; n]).collect();
    keys.push(vec![0xffu8; 200]);
    let bloom = Bloom::build_from_keys(&keys, 10);
    for k in &keys {
        assert!(bloom.may_contain(k));
    }
    let mut builder = SsTableBuilder::new(4096);
    for k in &keys {
        builder.add(k, b"v").expect("add");
    }
    let (table, _) = builder.build(2).expect("build");
    for k in &keys {
        assert_eq!(table.get(k).unwrap(), Some(b"v".to_vec()));
    }
}
