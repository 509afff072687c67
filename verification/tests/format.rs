use cokekv::{
    compare_keys, decode_record, decode_records, encode_record, replay_records, snapshot_records,
    Error, KeyOrder, KvTable, WalRecord,
};

#[test]
fn encoded_length_is_header_plus_key_plus_value() {
    let record = WalRecord::Put {
        key: b"abc".to_vec(),
        value: b"defgh".to_vec(),
    };
    assert_eq!(encode_record(&record).len(), 9 + 3 + 5);
}

#[test]
fn encode_writes_lengths_little_endian() {
    let key = vec![7u8; 300];
    let record = WalRecord::Put {
        key: key.clone(),
        value: b"v".to_vec(),
    };
    let encoded = encode_record(&record);
    assert_eq!(&encoded[1..5], &[44, 1, 0, 0]);
    assert_eq!(&encoded[5..9], &[1, 0, 0, 0]);
    assert_eq!(decode_record(&encoded).unwrap(), record);
}

#[test]
fn decode_errors_are_invalid_wal_record() {
    assert_eq!(decode_record(&[]).unwrap_err(), Error::InvalidWalRecord);
    assert_eq!(decode_records(&[1, 0]).unwrap_err(), Error::InvalidWalRecord);
    let mut bytes = vec![3u8];
    bytes.extend(0u32.to_le_bytes());
    bytes.extend(0u32.to_le_bytes());
    assert_eq!(decode_record(&bytes).unwrap_err(), Error::InvalidWalRecord);
}

#[test]
fn decode_empty_put_record() {
    let mut bytes = vec![1u8];
    bytes.extend(0u32.to_le_bytes());
    bytes.extend(0u32.to_le_bytes());
    assert_eq!(
        decode_record(&bytes).unwrap(),
        WalRecord::Put {
            key: Vec::new(),
            value: Vec::new()
        }
    );
}

#[test]
fn decode_records_rejects_record_longer_than_rest() {
    let mut bytes = encode_record(&WalRecord::Delete { key: b"k".to_vec() });
    bytes.push(1);
    bytes.extend(5u32.to_le_bytes());
    bytes.extend(0u32.to_le_bytes());
    bytes.extend(b"abc");
    assert!(decode_records(&bytes).is_err());
}

#[test]
fn decode_records_rejects_bad_record_inside() {
    let mut bytes = encode_record(&WalRecord::Delete { key: b"k".to_vec() });
    bytes.push(2);
    bytes.extend(1u32.to_le_bytes());
    bytes.extend(1u32.to_le_bytes());
    bytes.extend(b"kv");
    assert!(decode_records(&bytes).is_err());
}

#[test]
fn replay_delete_then_put_keeps_value() {
    let data = replay_records(vec![
        WalRecord::Delete { key: b"k".to_vec() },
        WalRecord::Put {
            key: b"k".to_vec(),
            value: b"v".to_vec(),
        },
    ]);
    assert_eq!(data.get(b"k".as_slice()), Some(&b"v".to_vec()));
    assert_eq!(data.len(), 1);
}

#[test]
fn compare_keys_is_lexicographic() {
    assert_eq!(compare_keys(b"a", b"b"), KeyOrder::Less);
    assert_eq!(compare_keys(b"ab", b"a"), KeyOrder::Greater);
    assert_eq!(compare_keys(b"", b"a"), KeyOrder::Less);
    assert_eq!(compare_keys(b"abc", b"abc"), KeyOrder::Equal);
    assert_eq!(compare_keys(&[200], &[100, 255]), KeyOrder::Greater);
}

#[test]
fn table_keeps_keys_in_order() {
    let mut table = KvTable::new();
    table.insert(b"m".to_vec(), b"1".to_vec());
    table.insert(b"c".to_vec(), b"2".to_vec());
    table.insert(b"x".to_vec(), b"3".to_vec());
    table.insert(b"c".to_vec(), b"4".to_vec());
    table.remove(b"zz");
    assert_eq!(table.len(), 3);
    assert_eq!(table.key(0), &b"c".to_vec());
    assert_eq!(table.value(0), &b"4".to_vec());
    assert_eq!(table.key(2), &b"x".to_vec());
    table.remove(b"m");
    assert_eq!(table.len(), 2);
    assert_eq!(table.get(b"m"), None);
    let records = snapshot_records(&table);
    assert_eq!(
        records,
        vec![
            WalRecord::Put {
                key: b"c".to_vec(),
                value: b"4".to_vec()
            },
            WalRecord::Put {
                key: b"x".to_vec(),
                value: b"3".to_vec()
            },
        ]
    );
}

