use cokekv::{
    decode_records, encode_record, Engine, MemoryEngine, PersistentState, WalRecord,
    COMPACTION_THRESHOLD,
};

fn put(key: &[u8], value: &[u8]) -> WalRecord {
    WalRecord::Put {
        key: key.to_vec(),
        value: value.to_vec(),
    }
}

fn delete(key: &[u8]) -> WalRecord {
    WalRecord::Delete { key: key.to_vec() }
}

fn log_bytes(records: &[WalRecord]) -> Vec<u8> {
    let mut bytes = Vec::new();
    for record in records {
        bytes.extend(encode_record(record));
    }
    bytes
}

#[test]
fn persistent_state_recovers_from_log_bytes() {
    let log = vec![put(b"k1", b"v1"), put(b"k2", b"v2"), delete(b"k1")];
    let bytes = log_bytes(&log);

    let state = PersistentState::recover(decode_records(&bytes).unwrap());

    assert!(state.get(b"k1").is_none());
    assert_eq!(state.get(b"k2"), Some(b"v2".to_vec()));
    assert_eq!(state.record_count(), 3);
    assert_eq!(state.compaction_threshold(), COMPACTION_THRESHOLD);
}

#[test]
fn persistent_state_recovers_latest_value_after_overwrite() {
    let bytes = log_bytes(&[put(b"k1", b"v1"), put(b"k1", b"v2")]);

    let state = PersistentState::recover(decode_records(&bytes).unwrap());

    assert_eq!(state.get(b"k1"), Some(b"v2".to_vec()));
}

#[test]
fn persistent_state_apply_counts_and_updates() {
    let mut state = PersistentState::recover(Vec::new());
    assert_eq!(state.record_count(), 0);
    assert!(!state.needs_compaction());

    state.apply(put(b"k1", b"v1"));
    assert_eq!(state.get(b"k1"), Some(b"v1".to_vec()));
    state.apply(put(b"", b""));
    assert_eq!(state.get(b""), Some(Vec::new()));
    state.apply(delete(b"missing"));
    assert_eq!(state.get(b"missing"), None);
    assert_eq!(state.record_count(), 3);
}

#[test]
fn persistent_state_compacts_overwritten_key() {
    let mut state = PersistentState::recover(Vec::new());
    state.set_compaction_threshold(2);

    state.apply(put(b"k1", b"v1"));
    assert!(!state.needs_compaction());
    state.apply(put(b"k1", b"v2"));
    assert!(state.needs_compaction());

    let records = state.compacted_records();
    assert_eq!(records, vec![put(b"k1", b"v2")]);

    state.finish_compaction();
    assert_eq!(state.record_count(), 1);
    assert!(!state.needs_compaction());
    assert_eq!(state.get(b"k1"), Some(b"v2".to_vec()));
}

#[test]
fn persistent_state_compaction_drops_deleted_key() {
    let mut state = PersistentState::recover(Vec::new());
    state.set_compaction_threshold(3);

    state.apply(put(b"k1", b"v1"));
    state.apply(put(b"k2", b"v2"));
    state.apply(delete(b"k1"));
    assert!(state.needs_compaction());

    let records = state.compacted_records();
    assert_eq!(records, vec![put(b"k2", b"v2")]);
    state.finish_compaction();
    assert_eq!(state.record_count(), 1);
}

#[test]
fn compacted_records_are_in_key_order_and_recover_the_state() {
    let mut state = PersistentState::recover(Vec::new());
    state.apply(put(b"b", b"2"));
    state.apply(put(b"ab", b"3"));
    state.apply(put(b"a", b"1"));
    state.apply(put(b"", b"0"));

    let records = state.compacted_records();
    assert_eq!(
        records,
        vec![put(b"", b"0"), put(b"a", b"1"), put(b"ab", b"3"), put(b"b", b"2")]
    );

    let bytes = log_bytes(&records);
    let recovered = PersistentState::recover(decode_records(&bytes).unwrap());
    for key in [&b""[..], b"a", b"ab", b"b", b"c"] {
        assert_eq!(recovered.get(key), state.get(key));
    }
}

#[test]
fn persistent_state_agrees_with_memory_engine() {
    let mut memory = MemoryEngine::new();
    let mut state = PersistentState::recover(Vec::new());
    state.set_compaction_threshold(3);
    let ops = vec![
        put(b"k1", b"v1"),
        put(b"k1", b"v2"),
        delete(b"k1"),
        put(b"", b"v1"),
        put(b"k1", b""),
        delete(b"missing"),
        put(b"k2", b"x"),
    ];
    for op in ops {
        match &op {
            WalRecord::Put { key, value } => memory.put(key.clone(), value.clone()).unwrap(),
            WalRecord::Delete { key } => memory.delete(key).unwrap(),
        }
        state.apply(op);
        if state.needs_compaction() {
            let _ = state.compacted_records();
            state.finish_compaction();
        }
        for key in [&b""[..], b"k1", b"k2", b"missing"] {
            assert_eq!(state.get(key), memory.get(key).unwrap());
        }
    }
}
