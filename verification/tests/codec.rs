//! The byte format of single records.

use kvs::codec::{decode_record_at, encode_record};
use kvs::record::Record;

#[test]
fn encoding_of_a_set_record_is_tag_lengths_and_utf8() {
    let rec = Record::Insert { key: "a".to_owned(), value: "1".to_owned() };
    let bytes = encode_record(&rec);
    let expected: Vec<u8> = vec![
        0, // Set tag
        1, 0, 0, 0, 0, 0, 0, 0, // key length, little-endian
        97, // "a"
        1, 0, 0, 0, 0, 0, 0, 0, // value length, little-endian
        49, // "1"
    ];
    assert_eq!(bytes, expected);
}

#[test]
fn encoding_of_a_remove_record_is_tag_length_and_utf8() {
    let rec = Record::Remove { key: "ab".to_owned() };
    let bytes = encode_record(&rec);
    let expected: Vec<u8> = vec![
        1, // Remove tag
        2, 0, 0, 0, 0, 0, 0, 0, // key length, little-endian
        97, 98, // "ab"
    ];
    assert_eq!(bytes, expected);
}

#[test]
fn a_record_decodes_back_to_itself() {
    let rec = Record::Insert { key: "clé".to_owned(), value: "värde".to_owned() };
    let bytes = encode_record(&rec);
    let total = bytes.len();
    match decode_record_at(&bytes, 0) {
        Some((Record::Insert { key, value }, end)) => {
            assert_eq!(key, "clé");
            assert_eq!(value, "värde");
            assert_eq!(end, total);
        },
        _ => panic!("a Set record should decode back to a Set record"),
    }
}

#[test]
fn records_decode_back_to_back() {
    let first = Record::Insert { key: "k".to_owned(), value: "v".to_owned() };
    let second = Record::Remove { key: "k".to_owned() };
    let mut bytes = encode_record(&first);
    let boundary = bytes.len();
    bytes.extend_from_slice(&encode_record(&second));
    match decode_record_at(&bytes, 0) {
        Some((Record::Insert { .. }, end)) => assert_eq!(end, boundary),
        _ => panic!("the first record should decode as a Set"),
    }
    match decode_record_at(&bytes, boundary) {
        Some((Record::Remove { key }, end)) => {
            assert_eq!(key, "k");
            assert_eq!(end, bytes.len());
        },
        _ => panic!("the second record should decode as a Remove"),
    }
}

#[test]
fn an_unknown_tag_does_not_decode() {
    let bytes: Vec<u8> = vec![7, 0, 0, 0, 0, 0, 0, 0, 0];
    assert!(decode_record_at(&bytes, 0).is_none());
}

#[test]
fn a_short_fragment_does_not_decode() {
    let bytes: Vec<u8> = vec![0, 3, 0];
    assert!(decode_record_at(&bytes, 0).is_none());
}

#[test]
fn invalid_utf8_does_not_decode() {
    let bytes: Vec<u8> = vec![1, 1, 0, 0, 0, 0, 0, 0, 0, 0xff];
    assert!(decode_record_at(&bytes, 0).is_none());
}
