use coca::key::{decode_key, encode_key, KeyError, KeyWriter, StorageKey, KEY_LEN, KEY_VERSION};

fn key(nonce: u8, timestamp: u128) -> StorageKey {
    StorageKey { version: KEY_VERSION, nonce, timestamp }
}

#[test]
fn encoded_layout_is_tag_big_endian_stamp_nonce() {
    let bytes = encode_key(key(7, 0x0102));
    assert_eq!(bytes.len(), KEY_LEN);
    assert_eq!(bytes[0], KEY_VERSION);
    assert_eq!(&bytes[1..15], &[0u8; 14]);
    assert_eq!(bytes[15], 0x01);
    assert_eq!(bytes[16], 0x02);
    assert_eq!(bytes[17], 7);
}

#[test]
fn round_trip_of_chosen_keys() {
    let stamps = [0u128, 1, 255, 256, 1_700_000_000_123, u64::MAX as u128, u128::MAX];
    for &t in stamps.iter() {
        for &n in [0u8, 1, 128, 255].iter() {
            let k = key(n, t);
            assert_eq!(decode_key(&encode_key(k), KEY_VERSION), Ok(k));
        }
    }
    let other = StorageKey { version: 9, nonce: 3, timestamp: 42 };
    assert_eq!(decode_key(&encode_key(other), 9), Ok(other));
}

#[test]
fn schema_mismatch_is_reported() {
    let bytes = encode_key(StorageKey { version: 2, nonce: 0, timestamp: 5 });
    assert_eq!(decode_key(&bytes, KEY_VERSION), Err(KeyError::SchemaMismatch));
    // a foreign tag is reported even where the length is wrong too
    assert_eq!(decode_key(&[2u8, 0, 0], KEY_VERSION), Err(KeyError::SchemaMismatch));
}

#[test]
fn wrong_length_is_malformed() {
    assert_eq!(decode_key(&[], KEY_VERSION), Err(KeyError::Malformed));
    assert_eq!(decode_key(&[KEY_VERSION], KEY_VERSION), Err(KeyError::Malformed));
    let mut long = encode_key(key(0, 9));
    long.push(0);
    assert_eq!(decode_key(&long, KEY_VERSION), Err(KeyError::Malformed));
}

#[test]
fn byte_order_is_chronological_order() {
    // writes in an arbitrary order, through one writer
    let stamps = [5_000u128, 1_000, 1_000, 70_000, 256, 255, 1_000, u128::MAX, 0];
    let mut writer = KeyWriter::new();
    let mut keys: Vec<Vec<u8>> = stamps.iter().map(|&t| writer.next_key(t)).collect();
    keys.sort();
    let decoded: Vec<StorageKey> =
        keys.iter().map(|k| decode_key(k, KEY_VERSION).unwrap()).collect();
    for pair in decoded.windows(2) {
        let (a, b) = (pair[0], pair[1]);
        assert!(a.timestamp < b.timestamp || (a.timestamp == b.timestamp && a.nonce < b.nonce));
    }
    assert_eq!(decoded[0].timestamp, 0);
    assert_eq!(decoded[8].timestamp, u128::MAX);
    // the three writes at 1000 keep their write order
    let at_1000: Vec<u8> =
        decoded.iter().filter(|k| k.timestamp == 1_000).map(|k| k.nonce).collect();
    assert_eq!(at_1000, vec![1, 2, 6]);
}

#[test]
fn non_decreasing_writes_are_stored_in_write_order() {
    let stamps = [10u128, 10, 11, 11, 11, 400, 400, 70_000];
    let mut writer = KeyWriter { nonce: 200 };
    let keys: Vec<Vec<u8>> = stamps.iter().map(|&t| writer.next_key(t)).collect();
    let mut sorted = keys.clone();
    sorted.sort();
    assert_eq!(sorted, keys);
}

#[test]
fn same_instant_writes_get_distinct_keys() {
    let t = 1_700_000_000_000u128;
    let mut writer = KeyWriter::new();
    let first = writer.next_key(t);
    let second = writer.next_key(t);
    let third = writer.next_key(t + 1);
    assert_ne!(first, second);
    assert_eq!(first[..17], second[..17]);
    assert_eq!(decode_key(&first, KEY_VERSION), Ok(key(0, t)));
    assert_eq!(decode_key(&second, KEY_VERSION), Ok(key(1, t)));
    assert!(first < second);
    assert!(first < third && second < third);
}

#[test]
fn nonce_wraps_after_255() {
    let mut writer = KeyWriter { nonce: 254 };
    let a = writer.next_key(3);
    let b = writer.next_key(3);
    let c = writer.next_key(3);
    assert_eq!(writer.nonce, 1);
    assert_eq!(a[17], 254);
    assert_eq!(b[17], 255);
    assert_eq!(c[17], 0);
    assert_ne!(a, c);
    // at the wrap the two writes of one instant still differ, and both precede the next instant
    let later = writer.next_key(4);
    assert!(b < later && c < later);
}
