use kvlog::{encode, KVStore, LoadError, RecordError};

fn put(store: &mut KVStore, log: &mut Vec<u8>, key: &[u8], value: &[u8]) -> u64 {
    let end = log.len() as u64;
    let frame = store.insert(key, value, end);
    log.extend(frame);
    end
}

fn remove(store: &mut KVStore, log: &mut Vec<u8>, key: &[u8]) {
    let end = log.len() as u64;
    let frame = store.delete(key, end);
    log.extend(frame);
}

#[test]
fn new_store_is_empty() {
    let store = KVStore::new();
    assert_eq!(store.len(), 0);
    assert_eq!(store.get(b"a", &[]), Ok(None));
}

#[test]
fn insert_returns_the_encoded_record() {
    let mut store = KVStore::new();
    assert_eq!(store.insert(b"a", b"1", 0), encode(b"a", b"1"));
    assert_eq!(store.update(b"a", b"3", 14), encode(b"a", b"3"));
    assert_eq!(store.delete(b"a", 28), encode(b"a", b""));
    assert_eq!(store.position(b"a"), Some(28));
}

#[test]
fn example_scenario() {
    let mut store = KVStore::new();
    let mut log = Vec::new();
    put(&mut store, &mut log, b"a", b"1");
    put(&mut store, &mut log, b"b", b"2");
    put(&mut store, &mut log, b"a", b"3");
    remove(&mut store, &mut log, b"b");
    assert_eq!(store.get(b"a", &log), Ok(Some(b"3".to_vec())));
    assert_eq!(store.get(b"b", &log), Ok(Some(Vec::new())));
    assert_eq!(store.get(b"c", &log), Ok(None));
    assert_eq!(store.len(), 2);
}

#[test]
fn last_writer_wins() {
    let mut store = KVStore::new();
    let mut log = Vec::new();
    let first = put(&mut store, &mut log, b"key", b"first");
    let second = put(&mut store, &mut log, b"key", b"second");
    assert_eq!((first, second), (0, 20));
    assert_eq!(store.get(b"key", &log), Ok(Some(b"second".to_vec())));
    assert_eq!(store.position(b"key"), Some(second));
    assert_eq!(store.len(), 1);
}

#[test]
fn delete_leaves_present_empty_value() {
    let mut store = KVStore::new();
    let mut log = Vec::new();
    put(&mut store, &mut log, b"key", b"value");
    remove(&mut store, &mut log, b"key");
    assert_eq!(store.get(b"key", &log), Ok(Some(Vec::new())));
    assert_eq!(store.position(b"key"), Some(20));
}

#[test]
fn delete_of_unknown_key_adds_tombstone() {
    let mut store = KVStore::new();
    let mut log = Vec::new();
    remove(&mut store, &mut log, b"ghost");
    assert_eq!(store.get(b"ghost", &log), Ok(Some(Vec::new())));
}

#[test]
fn reload_gives_same_index() {
    let mut store = KVStore::new();
    let mut log = Vec::new();
    put(&mut store, &mut log, b"a", b"1");
    put(&mut store, &mut log, b"b", b"2");
    put(&mut store, &mut log, b"", b"empty key");
    put(&mut store, &mut log, b"a", b"3");
    remove(&mut store, &mut log, b"b");
    let mut reopened = KVStore::new();
    assert_eq!(reopened.load(&log), Ok(()));
    assert_eq!(reopened.len(), store.len());
    for key in [&b"a"[..], b"b", b"", b"c"] {
        assert_eq!(reopened.position(key), store.position(key));
        assert_eq!(reopened.get(key, &log), store.get(key, &log));
    }
    assert_eq!(reopened.load(&log), Ok(()));
    assert_eq!(reopened.position(b"a"), store.position(b"a"));
}

#[test]
fn load_of_empty_log_succeeds() {
    let mut store = KVStore::new();
    assert_eq!(store.load(&[]), Ok(()));
    assert_eq!(store.len(), 0);
}

#[test]
fn load_keeps_earlier_entries() {
    let mut store = KVStore::new();
    store.insert(b"x", b"9", 500);
    let log = encode(b"y", b"1");
    assert_eq!(store.load(&log), Ok(()));
    assert_eq!(store.position(b"x"), Some(500));
    assert_eq!(store.position(b"y"), Some(0));
}

#[test]
fn load_stops_at_truncated_tail() {
    let mut writer = KVStore::new();
    let mut log = Vec::new();
    put(&mut writer, &mut log, b"a", b"1");
    put(&mut writer, &mut log, b"b", b"2");
    let last = put(&mut writer, &mut log, b"c", b"333");
    log.truncate(log.len() - 2);
    let mut store = KVStore::new();
    assert_eq!(
        store.load(&log),
        Err(LoadError { cause: RecordError::Truncated, offset: last as usize, records: 2 })
    );
    assert_eq!(store.get(b"a", &log), Ok(Some(b"1".to_vec())));
    assert_eq!(store.get(b"b", &log), Ok(Some(b"2".to_vec())));
    assert_eq!(store.get(b"c", &log), Ok(None));
}

#[test]
fn load_stops_at_truncated_header() {
    let mut log = encode(b"a", b"1");
    log.extend([1u8, 2, 3]);
    let mut store = KVStore::new();
    assert_eq!(
        store.load(&log),
        Err(LoadError { cause: RecordError::Truncated, offset: 14, records: 1 })
    );
    assert_eq!(store.position(b"a"), Some(0));
}

#[test]
fn corruption_is_reported_by_load_and_get() {
    let mut writer = KVStore::new();
    let mut log = Vec::new();
    put(&mut writer, &mut log, b"a", b"1");
    let at = put(&mut writer, &mut log, b"b", b"22") as usize;
    put(&mut writer, &mut log, b"c", b"3");
    for i in at + 12..at + 15 {
        for bit in 0..8 {
            let mut bad = log.clone();
            bad[i] ^= 1 << bit;
            assert_eq!(writer.get(b"b", &bad), Err(RecordError::Corrupt));
            assert_eq!(writer.get(b"a", &bad), Ok(Some(b"1".to_vec())));
            let mut store = KVStore::new();
            assert_eq!(
                store.load(&bad),
                Err(LoadError { cause: RecordError::Corrupt, offset: at, records: 1 })
            );
        }
    }
}

#[test]
fn get_past_end_of_log() {
    let mut store = KVStore::new();
    store.insert(b"k", b"v", 100);
    assert_eq!(store.get(b"k", &encode(b"k", b"v")), Err(RecordError::EndOfLog));
}

#[test]
fn offsets_increase_for_distinct_keys() {
    let mut store = KVStore::new();
    let mut log = Vec::new();
    let keys: Vec<Vec<u8>> = (0..20u8).map(|i| vec![b'k', i]).collect();
    let mut last = None;
    for (i, k) in keys.iter().enumerate() {
        let value = vec![i as u8; i];
        let at = put(&mut store, &mut log, k, &value);
        if let Some(prev) = last {
            assert!(at > prev);
        }
        last = Some(at);
    }
    let offsets: Vec<u64> = keys.iter().map(|k| store.position(k).unwrap()).collect();
    assert!(offsets.windows(2).all(|w| w[0] < w[1]));
    assert_eq!(offsets[0], 0);
    assert_eq!(offsets[1], 14);
}
