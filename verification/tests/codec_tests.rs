use slotstore::codec::{decode, encode, Slot, SLOT_BYTES};
use slotstore::err::StoreError;
use slotstore::hasher::{hash_bytes, hash_chars};
use slotstore::store::SlotStore;

#[test]
fn hasher_matches_rolling_formula() {
    assert_eq!(hash_bytes(b""), 5381);
    assert_eq!(hash_bytes(b"a"), 5381u64.wrapping_mul(33).wrapping_add(97));
    let mut expected: u64 = 5381;
    for b in b"slot" {
        expected = expected.wrapping_mul(33).wrapping_add(*b as u64);
    }
    assert_eq!(hash_bytes(b"slot"), expected);
    assert_eq!(hash_chars("slot"), expected);
}

#[test]
fn single_slot_encodes_and_decodes() {
    let slot = Slot::Single {
        key: b"name".to_vec(),
        value: b"value".to_vec(),
    };
    let bytes = encode(&slot);
    assert_eq!(bytes.len(), SLOT_BYTES);
    assert_eq!(bytes[0], 2);
    match decode(bytes.as_slice()) {
        Ok(Slot::Single { key, value }) => {
            assert_eq!(key, b"name".to_vec());
            assert_eq!(value, b"value".to_vec());
        }
        other => panic!("expected a single slot, got {:?}", other.is_ok()),
    }
}

#[test]
fn chain_head_encodes_and_decodes() {
    let slot = Slot::ChainHead {
        key: b"k".to_vec(),
        links: vec![3, 70000, 0, 4294967295],
    };
    let bytes = encode(&slot);
    match decode(bytes.as_slice()) {
        Ok(Slot::ChainHead { key, links }) => {
            assert_eq!(key, b"k".to_vec());
            assert_eq!(links, vec![3, 70000, 0, 4294967295]);
        }
        other => panic!("expected a chain head, got {:?}", other.is_ok()),
    }
}

#[test]
fn chain_link_and_markers_encode_and_decode() {
    let frag = vec![7u8; 63];
    let bytes = encode(&Slot::ChainLink { frag: frag.clone() });
    match decode(bytes.as_slice()) {
        Ok(Slot::ChainLink { frag: back }) => assert_eq!(back, frag),
        other => panic!("expected a chain link, got {:?}", other.is_ok()),
    }
    assert!(matches!(
        decode(encode(&Slot::Empty).as_slice()),
        Ok(Slot::Empty)
    ));
    assert!(matches!(
        decode(encode(&Slot::Tombstone).as_slice()),
        Ok(Slot::Tombstone)
    ));
}

#[test]
fn unknown_tag_is_a_corrupt_record() {
    let mut bytes = vec![0u8; SLOT_BYTES];
    bytes[0] = 5;
    assert!(matches!(
        decode(bytes.as_slice()),
        Err(StoreError::CorruptRecord)
    ));
    bytes[0] = 3;
    bytes[17] = 0; // a chain head listing no continuation slot
    assert!(matches!(
        decode(bytes.as_slice()),
        Err(StoreError::CorruptRecord)
    ));
}

#[test]
fn slot_store_reads_writes_and_grows() {
    let mut st = SlotStore::new_empty(3);
    assert_eq!(st.capacity(), 3);
    st.write(
        1,
        Slot::Single {
            key: b"k".to_vec(),
            value: b"v".to_vec(),
        },
    );
    assert!(matches!(st.read(1), Slot::Single { .. }));
    assert!(matches!(st.read(0), Slot::Empty));
    st.append_empty(2);
    assert_eq!(st.capacity(), 5);
    assert!(matches!(st.read(4), Slot::Empty));
}
