use cokekv::{
    decode_record, decode_records, encode_record, replay_records, WalRecord, RECORD_TYPE_DELETE,
    RECORD_TYPE_PUT,
};

#[test]
fn encode_put_record() {
    let record = WalRecord::Put {
        key: b"k1".to_vec(),
        value: b"v1".to_vec(),
    };

    let encoded = encode_record(&record);

    assert_eq!(encoded[0], RECORD_TYPE_PUT);
    assert_eq!(&encoded[1..5], &(2u32.to_le_bytes()));
    assert_eq!(&encoded[5..9], &(2u32.to_le_bytes()));
    assert_eq!(&encoded[9..11], b"k1");
    assert_eq!(&encoded[11..13], b"v1");
}

#[test]
fn encode_delete_record() {
    let record = WalRecord::Delete {
        key: b"k1".to_vec(),
    };

    let encoded = encode_record(&record);

    assert_eq!(encoded[0], RECORD_TYPE_DELETE);
    assert_eq!(&encoded[1..5], &(2u32.to_le_bytes()));
    assert_eq!(&encoded[5..9], &(0u32.to_le_bytes()));
    assert_eq!(&encoded[9..11], b"k1");
    assert_eq!(encoded.len(), 11);
    assert_eq!(&encoded[11..], b"");
}

#[test]
fn encode_then_decode_put_record() {
    let record = WalRecord::Put {
        key: b"k1".to_vec(),
        value: b"v1".to_vec(),
    };

    let encoded = encode_record(&record);
    let decoded = decode_record(&encoded).unwrap();

    assert_eq!(decoded, record);
}

#[test]
fn encode_then_decode_delete_record() {
    let record = WalRecord::Delete {
        key: b"k1".to_vec(),
    };

    let encoded = encode_record(&record);
    let decoded = decode_record(&encoded).unwrap();

    assert_eq!(decoded, record);
}

#[test]
fn decode_reject_too_short_record() {
    let bytes = vec![RECORD_TYPE_PUT];

    assert!(decode_record(&bytes).is_err());
}

#[test]
fn decode_reject_unknown_type_record() {
    let mut bytes = Vec::new();
    bytes.push(99);
    bytes.extend((0u32).to_le_bytes());
    bytes.extend((0u32).to_le_bytes());

    assert!(decode_record(&bytes).is_err());
}

#[test]
fn decode_reject_length_mismatch() {
    let mut bytes = Vec::new();
    bytes.push(RECORD_TYPE_PUT);
    bytes.extend((2u32).to_le_bytes());
    bytes.extend((0u32).to_le_bytes());

    assert!(decode_record(&bytes).is_err());
}

#[test]
fn decode_reject_with_value_delete_record() {
    let mut bytes = Vec::new();
    bytes.push(RECORD_TYPE_DELETE);
    bytes.extend((2u32).to_le_bytes());
    bytes.extend((1u32).to_le_bytes());
    bytes.extend(b"k1");
    bytes.extend(b"v");

    assert!(decode_record(&bytes).is_err());
}

#[test]
fn decode_multiple_records() {
    let record1 = WalRecord::Put {
        key: b"k1".to_vec(),
        value: b"v1".to_vec(),
    };

    let record2 = WalRecord::Delete {
        key: b"k1".to_vec(),
    };

    let mut bytes = Vec::new();
    bytes.extend(encode_record(&record1));
    bytes.extend(encode_record(&record2));

    let records = decode_records(&bytes).unwrap();
    assert_eq!(records, vec![record1, record2]);
}

#[test]
fn decode_empty_records() {
    assert_eq!(decode_records(&[]).unwrap(), Vec::new());
}

#[test]
fn decode_reject_trailing_partial_header() {
    let record = WalRecord::Put {
        key: b"k1".to_vec(),
        value: b"v1".to_vec(),
    };

    let mut bytes = encode_record(&record);
    bytes.extend(vec![1, 2, 3]);

    assert!(decode_records(&bytes).is_err());
}

#[test]
fn decode_reject_non_empty_partial_header() {
    let bytes = vec![RECORD_TYPE_PUT];

    assert!(decode_records(&bytes).is_err());
}

#[test]
fn replay_put_record() {
    let records = vec![WalRecord::Put {
        key: b"k1".to_vec(),
        value: b"v1".to_vec(),
    }];

    let data = replay_records(records);

    assert_eq!(data.get(b"k1".as_slice()), Some(&b"v1".to_vec()));
}

#[test]
fn replay_inorder_record() {
    let records = vec![
        WalRecord::Put {
            key: b"k1".to_vec(),
            value: b"v1".to_vec(),
        },
        WalRecord::Put {
            key: b"k1".to_vec(),
            value: b"v2".to_vec(),
        },
        WalRecord::Delete {
            key: b"k1".to_vec(),
        },
    ];

    let data = replay_records(records);

    assert!(data.get(b"k1".as_slice()).is_none());
}
