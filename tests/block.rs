use mini_lsm::block::{Block, BlockBuilder};

#[test]
fn test_block_encode_decode() {
    let mut builder = BlockBuilder::new(4096);
    builder.add(b"key1", b"value1");
    builder.add(b"key2", b"value2");
    let block = builder.build();
    let encoded = block.encode();
    let decoded = Block::decode(&encoded);

    assert_eq!(decoded.offsets.len(), 2);
    assert_eq!(decoded.get_entry(0), (&b"key1"[..], &b"value1"[..]));
    assert_eq!(decoded.get_entry(1), (&b"key2"[..], &b"value2"[..]));
}

#[test]
fn block_encoding_is_bit_exact() {
    let mut builder = BlockBuilder::new(4096);
    assert!(builder.add(b"a", b"xy"));
    assert!(builder.add(b"bc", b""));
    let block = builder.build();
    assert_eq!(block.offsets, vec![0u16, 7]);
    let encoded = block.encode();
    let expected: Vec<u8> = vec![
        1, 0, b'a', 2, 0, b'x', b'y', // entry 0
        2, 0, b'b', b'c', 0, 0, // entry 1
        0, 0, 7, 0, // offsets
        2, 0, // count
    ];
    assert_eq!(encoded, expected);
}

#[test]
fn block_round_trip_many_entries() {
    let mut builder = BlockBuilder::new(4096);
    let mut added = Vec::new();
    for i in 0..50u32 {
        let key = format!("key{:04}", i).into_bytes();
        let value = format!("value{}", i * 7).into_bytes();
        if !builder.add(&key, &value) {
            break;
        }
        added.push((key, value));
    }
    assert!(!added.is_empty());
    let block = builder.build();
    let offsets = block.offsets.clone();
    let decoded = Block::decode(&block.encode());
    assert_eq!(decoded.offsets, offsets);
    assert_eq!(decoded.data, block.data);
    for (i, (k, v)) in added.iter().enumerate() {
        assert!(decoded.has_entry(i));
        let (key, value) = decoded.get_entry(i);
        assert_eq!(key, &k[..]);
        assert_eq!(value, &v[..]);
    }
    assert!(!decoded.has_entry(added.len()));
}

#[test]
fn empty_builder_accepts_oversize_entry() {
    let mut builder = BlockBuilder::new(8);
    assert!(builder.is_empty());
    let value = vec![7u8; 100];
    assert!(builder.add(b"big", &value));
    assert!(!builder.is_empty());
    assert!(!builder.add(b"next", b"v"));
    let block = builder.build();
    assert_eq!(block.offsets.len(), 1);
    assert_eq!(block.get_entry(0), (&b"big"[..], &value[..]));
}

#[test]
fn builder_rejects_entry_past_target_size() {
    // 2 + 1 + 2 + 1 = 6 bytes of data, one offset: size 6 + 2 + 2 = 10.
    let mut builder = BlockBuilder::new(19);
    assert!(builder.add(b"a", b"1"));
    // Projected: 6 + 2 + (2 + 1 + 2 + 1) + 2 + 2 = 18 <= 19.
    assert!(builder.add(b"b", b"2"));
    // Projected: 12 + 4 + 6 + 2 + 2 = 26 > 19.
    assert!(!builder.add(b"c", b"3"));
    assert_eq!(builder.build().offsets.len(), 2);
}

#[test]
fn block_can_decode_checks_shape() {
    assert!(!Block::can_decode(&[]));
    assert!(!Block::can_decode(&[5, 0]));
    assert!(Block::can_decode(&[0, 0]));
}
