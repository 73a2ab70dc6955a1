use slotstore::codec::Slot;
use slotstore::err::StoreError;
use slotstore::hash_bucket::HashTable;

#[test]
fn round_trip_small_value() {
    let mut t = HashTable::new();
    assert_eq!(t.set(b"alpha", b"one"), Ok(()));
    assert_eq!(t.get(b"alpha"), Some(b"one".to_vec()));
}

#[test]
fn round_trip_empty_key_and_value() {
    let mut t = HashTable::new();
    assert_eq!(t.set(b"", b""), Ok(()));
    assert_eq!(t.get(b""), Some(Vec::new()));
    assert_eq!(t.set(b"k", b""), Ok(()));
    assert_eq!(t.get(b"k"), Some(Vec::new()));
}

#[test]
fn overwrite_keeps_last_value() {
    let mut t = HashTable::new();
    assert_eq!(t.set(b"key", b"first"), Ok(()));
    assert_eq!(t.set(b"key", b"second"), Ok(()));
    assert_eq!(t.get(b"key"), Some(b"second".to_vec()));
    assert_eq!(t.taken, 1);
}

#[test]
fn overwrite_inline_with_chained_and_back() {
    let mut t = HashTable::new();
    let long = vec![7u8; 300];
    assert_eq!(t.set(b"key", b"short"), Ok(()));
    assert_eq!(t.set(b"key", &long), Ok(()));
    assert_eq!(t.get(b"key"), Some(long));
    assert_eq!(t.set(b"key", b"short"), Ok(()));
    assert_eq!(t.get(b"key"), Some(b"short".to_vec()));
    assert_eq!(t.taken, 1);
}

#[test]
fn delete_then_absent() {
    let mut t = HashTable::new();
    assert_eq!(t.set(b"gone", b"value"), Ok(()));
    assert_eq!(t.del(b"gone"), Some(b"value".to_vec()));
    assert_eq!(t.get(b"gone"), None);
}

#[test]
fn delete_absent_returns_none_and_keeps_taken() {
    let mut t = HashTable::new();
    assert_eq!(t.set(b"kept", b"value"), Ok(()));
    let before = t.taken;
    assert_eq!(t.del(b"never"), None);
    assert_eq!(t.taken, before);
    assert_eq!(t.get(b"kept"), Some(b"value".to_vec()));
}

#[test]
fn fragmentation_boundary_lengths_round_trip() {
    // One byte, exactly one fragment width, and one byte past it: the
    // boundary cases of the chain-versus-single decision.
    for len in [1usize, 47, 48, 63, 64, 693] {
        let mut t = HashTable::new();
        let value = vec![9u8; len];
        assert_eq!(t.set(b"k", &value), Ok(()));
        assert_eq!(t.get(b"k"), Some(value));
    }
}

#[test]
fn growth_preserves_all_entries() {
    let mut t = HashTable::with_capacity(4);
    for i in 0..60u8 {
        let key = [b'k', b'0' + i / 10, b'0' + i % 10];
        let value = vec![i + 1; (i as usize % 90) + 1];
        assert_eq!(t.set(&key, &value), Ok(()));
    }
    assert_eq!(t.taken, 60);
    for i in 0..60u8 {
        let key = [b'k', b'0' + i / 10, b'0' + i % 10];
        let value = vec![i + 1; (i as usize % 90) + 1];
        assert_eq!(t.get(&key), Some(value));
    }
}

#[test]
fn tiny_table_chained_value_survives_neighbor_delete() {
    // Capacity 4: three short records force a growth rebuild before the
    // oversized fourth arrives; deleting a neighbor afterwards must leave
    // the chained value fully reassemblable.
    let mut t = HashTable::with_capacity(4);
    assert_eq!(t.set(b"a", b"1"), Ok(()));
    assert_eq!(t.set(b"b", b"2"), Ok(()));
    assert_eq!(t.set(b"c", b"3"), Ok(()));
    let big = vec![0xabu8; 200];
    assert_eq!(t.set(b"d", &big), Ok(()));
    assert_eq!(t.del(b"b"), Some(b"2".to_vec()));
    assert_eq!(t.get(b"d"), Some(big));
    assert_eq!(t.get(b"a"), Some(b"1".to_vec()));
    assert_eq!(t.get(b"c"), Some(b"3".to_vec()));
}

#[test]
fn key_too_long_is_rejected_untouched() {
    let mut t = HashTable::new();
    let key = [1u8; 17];
    assert_eq!(t.set(&key, b"v"), Err(StoreError::KeyTooLong));
    assert_eq!(t.taken, 0);
    assert_eq!(t.get(&key), None);
}

#[test]
fn value_too_large_is_rejected_untouched() {
    let mut t = HashTable::new();
    let value = vec![1u8; 694];
    assert_eq!(t.set(b"k", &value), Err(StoreError::ValueTooLarge));
    assert_eq!(t.taken, 0);
    assert_eq!(t.get(b"k"), None);
}

#[test]
fn byte_image_round_trip_preserves_records() {
    let mut t = HashTable::with_capacity(8);
    let big = vec![5u8; 150];
    assert_eq!(t.set(b"one", b"1"), Ok(()));
    assert_eq!(t.set(b"two", &big), Ok(()));
    assert_eq!(t.set(b"three", b"33"), Ok(()));
    assert_eq!(t.del(b"three"), Some(b"33".to_vec()));
    let image = t.to_bytes();
    let back = HashTable::from_bytes(image.as_slice()).unwrap();
    assert_eq!(back.get(b"one"), Some(b"1".to_vec()));
    assert_eq!(back.get(b"two"), Some(big));
    assert_eq!(back.get(b"three"), None);
    assert_eq!(back.taken, 2);
}

#[test]
fn from_bytes_rejects_bad_header() {
    assert!(matches!(
        HashTable::from_bytes(&[0u8; 10]),
        Err(StoreError::CorruptRecord)
    ));
    let mut t = HashTable::with_capacity(2);
    assert_eq!(t.set(b"k", b"v"), Ok(()));
    let mut image = t.to_bytes();
    image[0] = 9; // not a known format version
    assert!(matches!(
        HashTable::from_bytes(image.as_slice()),
        Err(StoreError::CorruptRecord)
    ));
}

#[test]
fn widest_key_and_value_round_trip() {
    let mut t = HashTable::new();
    let key = [3u8; 16];
    let value = [4u8; 693];
    assert_eq!(t.set(&key, &value), Ok(()));
    assert_eq!(t.get(&key), Some(value.to_vec()));
}

#[test]
fn from_slots_rebuilds_records() {
    let slots = vec![
        Slot::Empty,
        Slot::Single {
            key: b"a".to_vec(),
            value: b"1".to_vec(),
        },
        Slot::ChainHead {
            key: b"b".to_vec(),
            links: vec![3],
        },
        Slot::ChainLink {
            frag: {
                let mut f = vec![0u8; 63];
                f[0] = 9;
                f
            },
        },
        Slot::Tombstone,
    ];
    let t = HashTable::from_slots(slots).unwrap();
    assert_eq!(t.taken, 2);
    assert_eq!(t.get(b"a"), Some(b"1".to_vec()));
    assert_eq!(t.get(b"b"), Some(vec![9u8]));
}

#[test]
fn from_slots_rejects_dangling_continuation() {
    let slots = vec![
        Slot::ChainHead {
            key: b"b".to_vec(),
            links: vec![7],
        },
        Slot::Empty,
    ];
    assert!(matches!(
        HashTable::from_slots(slots),
        Err(StoreError::CorruptRecord)
    ));
}

#[test]
fn from_bytes_rejects_unknown_tag() {
    let t = HashTable::with_capacity(2);
    let mut image = t.to_bytes();
    image[20] = 250; // corrupt the first slot's tag byte
    assert!(matches!(
        HashTable::from_bytes(image.as_slice()),
        Err(StoreError::CorruptRecord)
    ));
}
