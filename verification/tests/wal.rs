//! The write-ahead log on its own: append, stream, ranged reads, clearing,
//! and the compaction-threshold test.

use kvs::error::KvsError;
use kvs::record::Record;
use kvs::wal::WAL;

#[test]
fn append_then_stream_returns_the_records_in_order() {
    let mut wal = WAL::new();
    wal.append(&Record::Insert { key: "a".to_owned(), value: "1".to_owned() });
    wal.append(&Record::Remove { key: "a".to_owned() });
    let records = wal.stream();
    assert_eq!(records.len(), 2);
    match &records[0] {
        Record::Insert { key, value } => {
            assert_eq!(key, "a");
            assert_eq!(value, "1");
        },
        _ => panic!("the first record should be a Set"),
    }
    match &records[1] {
        Record::Remove { key } => assert_eq!(key, "a"),
        _ => panic!("the second record should be a Remove"),
    }
}

#[test]
fn read_one_returns_the_record_framed_by_its_range() {
    let mut wal = WAL::new();
    let n = wal.append(&Record::Insert { key: "k".to_owned(), value: "v".to_owned() });
    match wal.read_one(0, n) {
        Ok(Record::Insert { key, value }) => {
            assert_eq!(key, "k");
            assert_eq!(value, "v");
        },
        _ => panic!("the full range should read back the Set record"),
    }
}

#[test]
fn read_one_on_a_misaligned_range_is_a_parse_error() {
    let mut wal = WAL::new();
    let n = wal.append(&Record::Insert { key: "k".to_owned(), value: "v".to_owned() });
    let err = wal.read_one(0, n - 1).unwrap_err();
    assert!(matches!(err, KvsError::ParseError));
}

#[test]
fn exceeds_only_past_the_threshold() {
    let mut wal = WAL::new();
    for i in 0..100 {
        wal.append(&Record::Insert { key: format!("k{}", i), value: "v".to_owned() });
        assert!(!wal.exceeds());
    }
    wal.append(&Record::Insert { key: "one more".to_owned(), value: "v".to_owned() });
    assert!(wal.exceeds());
}

#[test]
fn clear_empties_the_log() {
    let mut wal = WAL::new();
    wal.append(&Record::Insert { key: "k".to_owned(), value: "v".to_owned() });
    wal.clear();
    assert_eq!(wal.size, 0);
    assert!(wal.data.is_empty());
    assert!(wal.stream().is_empty());
}
