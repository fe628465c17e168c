use polodb_cursor::{compare_bytes, is_prefix_with, stacked_key, stacked_key_bytes, DbErr, KeyValue};
use std::cmp::Ordering;

fn enc(v: KeyValue) -> Vec<u8> {
    stacked_key(&[v]).unwrap()
}

#[test]
fn encodes_null_and_booleans() {
    assert_eq!(enc(KeyValue::Null), vec![0x05]);
    assert_eq!(enc(KeyValue::Boolean(false)), vec![0x50, 0]);
    assert_eq!(enc(KeyValue::Boolean(true)), vec![0x50, 1]);
}

#[test]
fn encodes_integers_big_endian_with_sign_offset() {
    assert_eq!(enc(KeyValue::Int64(0)), vec![0x10, 0x80, 0, 0, 0, 0, 0, 0, 0]);
    assert_eq!(enc(KeyValue::Int64(1)), vec![0x10, 0x80, 0, 0, 0, 0, 0, 0, 1]);
    assert_eq!(
        enc(KeyValue::Int64(-1)),
        vec![0x10, 0x7f, 0xff, 0xff, 0xff, 0xff, 0xff, 0xff, 0xff]
    );
    assert_eq!(enc(KeyValue::Int64(i64::MIN)), vec![0x10, 0, 0, 0, 0, 0, 0, 0, 0]);
    assert_eq!(
        enc(KeyValue::Int64(i64::MAX)),
        vec![0x10, 0xff, 0xff, 0xff, 0xff, 0xff, 0xff, 0xff, 0xff]
    );
    assert_eq!(enc(KeyValue::Int64(258)), vec![0x10, 0x80, 0, 0, 0, 0, 0, 1, 2]);
}

#[test]
fn encodes_strings_zero_terminated() {
    assert_eq!(enc(KeyValue::String("ab".to_string())), vec![0x20, b'a', b'b', 0]);
    assert_eq!(enc(KeyValue::String(String::new())), vec![0x20, 0]);
    assert_eq!(
        enc(KeyValue::String("é".to_string())),
        vec![0x20, 0xc3, 0xa9, 0]
    );
}

#[test]
fn rejects_string_with_zero_byte() {
    let r = stacked_key(&[KeyValue::Int64(1), KeyValue::String("a\0b".to_string())]);
    assert_eq!(r, Err(DbErr::NotAValidKeyType));
    let mut out = vec![7u8];
    let r = stacked_key_bytes(&mut out, &KeyValue::String("\0".to_string()));
    assert_eq!(r, Err(DbErr::NotAValidKeyType));
    assert_eq!(out, vec![7u8]);
}

#[test]
fn stacked_key_concatenates_encodings() {
    let k = stacked_key(&[KeyValue::String("users".to_string()), KeyValue::Int64(1)]).unwrap();
    let mut expected = enc(KeyValue::String("users".to_string()));
    expected.extend(enc(KeyValue::Int64(1)));
    assert_eq!(k, expected);
    assert_eq!(stacked_key(&[]).unwrap(), Vec::<u8>::new());
    let mut out = vec![1u8, 2];
    stacked_key_bytes(&mut out, &KeyValue::Null).unwrap();
    assert_eq!(out, vec![1, 2, 0x05]);
}

#[test]
fn encoding_preserves_document_order() {
    let ordered = vec![
        vec![KeyValue::Null],
        vec![KeyValue::Int64(i64::MIN)],
        vec![KeyValue::Int64(-5)],
        vec![KeyValue::Int64(-5), KeyValue::Null],
        vec![KeyValue::Int64(3)],
        vec![KeyValue::Int64(256)],
        vec![KeyValue::String(String::new())],
        vec![KeyValue::String("a".to_string())],
        vec![KeyValue::String("a".to_string()), KeyValue::Int64(1)],
        vec![KeyValue::String("ab".to_string())],
        vec![KeyValue::String("b".to_string())],
        vec![KeyValue::Boolean(false)],
        vec![KeyValue::Boolean(true)],
    ];
    for i in 0..ordered.len() {
        for j in 0..ordered.len() {
            let a = stacked_key(&ordered[i]).unwrap();
            let b = stacked_key(&ordered[j]).unwrap();
            assert_eq!(a.cmp(&b), i.cmp(&j), "{} vs {}", i, j);
        }
    }
}

#[test]
fn compares_bytes_lexicographically() {
    assert_eq!(compare_bytes(b"abc", b"abd"), Ordering::Less);
    assert_eq!(compare_bytes(b"ab", b"abc"), Ordering::Less);
    assert_eq!(compare_bytes(b"b", b"abc"), Ordering::Greater);
    assert_eq!(compare_bytes(b"", b""), Ordering::Equal);
    assert_eq!(compare_bytes(b"xyz", b"xyz"), Ordering::Equal);
}

#[test]
fn prefix_test_on_bytes() {
    assert!(is_prefix_with(b"users1", b"users"));
    assert!(is_prefix_with(b"users", b"users"));
    assert!(is_prefix_with(b"abc", b""));
    assert!(!is_prefix_with(b"user", b"users"));
    assert!(!is_prefix_with(b"orders", b"users"));
    assert!(!is_prefix_with(b"", b"u"));
}
