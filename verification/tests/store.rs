//! End-to-end behaviour of the storage engine.

use kvs::kv::KvStore;
use kvs::KvsError;

fn s(x: &str) -> String {
    x.to_owned()
}

#[test]
fn set_then_get() {
    let mut store = KvStore::new();
    store.set(s("key"), s("value")).unwrap();
    assert_eq!(store.get(s("key")).unwrap(), Some(s("value")));
}

#[test]
fn get_missing_is_none() {
    let store = KvStore::new();
    assert_eq!(store.get(s("nope")).unwrap(), None);
}

#[test]
fn overwrite_takes_last_value() {
    let mut store = KvStore::new();
    store.set(s("k"), s("one")).unwrap();
    store.set(s("k"), s("two")).unwrap();
    assert_eq!(store.get(s("k")).unwrap(), Some(s("two")));
}

#[test]
fn interleaved_operations_follow_most_recent_write() {
    let mut store = KvStore::new();
    store.set(s("a"), s("1")).unwrap();
    store.set(s("b"), s("2")).unwrap();
    store.set(s("a"), s("3")).unwrap();
    store.remove(s("a")).unwrap();
    store.set(s("a"), s("4")).unwrap();
    assert_eq!(store.get(s("a")).unwrap(), Some(s("4")));
    assert_eq!(store.get(s("b")).unwrap(), Some(s("2")));
    store.remove(s("b")).unwrap();
    assert_eq!(store.get(s("b")).unwrap(), None);
}

#[test]
fn remove_of_never_set_key_fails_and_changes_nothing() {
    let mut store = KvStore::new();
    store.set(s("a"), s("1")).unwrap();
    let log_before = store.wal.data.clone();
    let err = store.remove(s("ghost")).unwrap_err();
    assert!(matches!(err, KvsError::KeyNotFound));
    assert_eq!(store.wal.data, log_before);
    assert_eq!(store.get(s("a")).unwrap(), Some(s("1")));
}

#[test]
fn remove_of_already_removed_key_fails_again() {
    let mut store = KvStore::new();
    store.set(s("a"), s("1")).unwrap();
    store.remove(s("a")).unwrap();
    let log_before = store.wal.data.clone();
    let err = store.remove(s("a")).unwrap_err();
    assert!(matches!(err, KvsError::KeyNotFound));
    assert_eq!(store.wal.data, log_before);
}

#[test]
fn reopen_reproduces_state() {
    let mut store = KvStore::new();
    store.set(s("a"), s("1")).unwrap();
    store.set(s("b"), s("2")).unwrap();
    store.remove(s("a")).unwrap();
    let bytes = store.wal.data.clone();
    let reopened = KvStore::open(bytes);
    assert_eq!(reopened.get(s("a")).unwrap(), None);
    assert_eq!(reopened.get(s("b")).unwrap(), Some(s("2")));
}

#[test]
fn compaction_is_idempotent() {
    let mut store = KvStore::new();
    store.set(s("a"), s("1")).unwrap();
    store.set(s("b"), s("2")).unwrap();
    store.set(s("a"), s("3")).unwrap();
    store.remove(s("b")).unwrap();
    store.compact().unwrap();
    let once = store.wal.data.clone();
    assert_eq!(store.get(s("a")).unwrap(), Some(s("3")));
    store.compact().unwrap();
    assert_eq!(store.wal.data, once);
    assert_eq!(store.get(s("a")).unwrap(), Some(s("3")));
    assert_eq!(store.get(s("b")).unwrap(), None);
}

#[test]
fn threshold_write_triggers_compaction_and_resets_counter() {
    let mut store = KvStore::new();
    for i in 0..100 {
        store.set(s("k"), format!("v{}", i)).unwrap();
    }
    // One hundred records written, none compacted away yet.
    assert_eq!(store.wal.size, 100);
    // The next write pushes the count past the threshold and compacts
    // before returning; one binding survives.
    store.set(s("k"), s("last")).unwrap();
    assert_eq!(store.wal.size, 1);
    assert_eq!(store.get(s("k")).unwrap(), Some(s("last")));
}

#[test]
fn end_to_end_scenario() {
    let mut store = KvStore::new();
    store.set(s("a"), s("1")).unwrap();
    store.set(s("b"), s("2")).unwrap();
    store.set(s("a"), s("3")).unwrap();
    assert_eq!(store.get(s("a")).unwrap(), Some(s("3")));
    store.remove(s("b")).unwrap();
    assert_eq!(store.get(s("b")).unwrap(), None);
    store.compact().unwrap();
    let bytes = store.wal.data.clone();
    let reopened = KvStore::open(bytes);
    assert_eq!(reopened.get(s("a")).unwrap(), Some(s("3")));
    assert_eq!(reopened.get(s("b")).unwrap(), None);
}

#[test]
fn truncated_trailing_write_is_tolerated() {
    let mut store = KvStore::new();
    store.set(s("a"), s("1")).unwrap();
    store.set(s("b"), s("2")).unwrap();
    let mut bytes = store.wal.data.clone();
    // A crash mid-append leaves a partial record: a Set tag and a length
    // that promises more bytes than the file holds.
    bytes.push(0u8);
    bytes.push(9u8);
    let reopened = KvStore::open(bytes);
    assert_eq!(reopened.get(s("a")).unwrap(), Some(s("1")));
    assert_eq!(reopened.get(s("b")).unwrap(), Some(s("2")));
}

#[test]
fn non_ascii_keys_and_values_round_trip() {
    let mut store = KvStore::new();
    store.set(s("clé"), s("värde λ")).unwrap();
    assert_eq!(store.get(s("clé")).unwrap(), Some(s("värde λ")));
    let reopened = KvStore::open(store.wal.data.clone());
    assert_eq!(reopened.get(s("clé")).unwrap(), Some(s("värde λ")));
}

#[test]
fn empty_key_and_value_are_stored() {
    let mut store = KvStore::new();
    store.set(s(""), s("")).unwrap();
    assert_eq!(store.get(s("")).unwrap(), Some(s("")));
}

#[test]
fn open_of_empty_log_is_empty_store() {
    let store = KvStore::open(Vec::new());
    assert_eq!(store.get(s("anything")).unwrap(), None);
    assert_eq!(store.wal.size, 0);
}

#[test]
fn error_messages() {
    assert_eq!(KvsError::KeyNotFound.message(), "Key not found");
    assert_eq!(KvsError::FileReadError.message(), "Failed to read file");
    assert_eq!(KvsError::ParseError.message(), "Failed to parse file");
    assert_eq!(KvsError::Unknown.message(), "Unknown error occurred");
    assert_eq!(KvsError::NoCommand.message(), "No command specified");
}
