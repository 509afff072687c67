use cokekv::{Engine, MemoryEngine};

fn assert_engine_basic_behaviors<E: Engine>(engine: &mut E) {
    // put/get
    engine.put(b"k1".to_vec(), b"v1".to_vec()).unwrap();

    let value = engine.get(b"k1").unwrap();

    assert_eq!(value, Some(b"v1".to_vec()));

    // overwrite
    engine.put(b"k1".to_vec(), b"v2".to_vec()).unwrap();

    assert_eq!(engine.get(b"k1").unwrap(), Some(b"v2".to_vec()));

    // delete
    engine.delete(b"k1").unwrap();

    assert_eq!(engine.get(b"k1").unwrap(), None);

    // miss key
    assert_eq!(engine.get(b"k1").unwrap(), None);

    assert_eq!(engine.get(b"missing").unwrap(), None);

    // empty key/value
    engine.put(b"".to_vec(), b"v1".to_vec()).unwrap();

    assert_eq!(engine.get(b"").unwrap(), Some(b"v1".to_vec()));

    engine.put(b"k1".to_vec(), b"".to_vec()).unwrap();

    assert_eq!(engine.get(b"k1").unwrap(), Some(b"".to_vec()));

    // delete miss key
    assert!(engine.delete(b"missing").is_ok());
}

#[test]
fn memory_engine_basic_behaviors() {
    let mut engine = MemoryEngine::new();
    assert_engine_basic_behaviors(&mut engine);
}

#[test]
fn memory_engine_default_is_empty() {
    let engine = MemoryEngine::default();
    assert_eq!(engine.get(b"").unwrap(), None);
    assert_eq!(engine.get(b"k1").unwrap(), None);
}

#[test]
fn memory_engine_keeps_other_keys() {
    let mut engine = MemoryEngine::new();
    engine.put(b"b".to_vec(), b"2".to_vec()).unwrap();
    engine.put(b"a".to_vec(), b"1".to_vec()).unwrap();
    engine.put(b"c".to_vec(), b"3".to_vec()).unwrap();
    engine.delete(b"b").unwrap();
    assert_eq!(engine.get(b"a").unwrap(), Some(b"1".to_vec()));
    assert_eq!(engine.get(b"b").unwrap(), None);
    assert_eq!(engine.get(b"c").unwrap(), Some(b"3".to_vec()));
}
