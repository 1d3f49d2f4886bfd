use flate2::read::ZlibDecoder;
use ogit::{ObjectStore, OgitError, OgitObjectType};
use std::io::Read;

#[test]
fn test_create_object() {
    let mut store = ObjectStore::new();
    let object = store.hash_object(b"hello world", None);
    assert_eq!(object.variant, OgitObjectType::Blob);
    assert_eq!(object.data, b"hello world".to_vec());
    assert_eq!(object.file_content(), b"blob 11\0hello world".to_vec());
    let hex_string = object.hex_string();
    let path = object.object_database_filepath();
    assert_eq!(path, format!("{}/{}", &hex_string[..2], &hex_string[2..]));
    assert!(store.contains(&hex_string));
}

#[test]
fn test_stored_bytes_are_compressed() {
    let mut store = ObjectStore::new();
    let object = store.hash_object(b"hello world", None);
    let raw = store.raw_object_bytes(&object.hex_string()).unwrap();
    assert_ne!(raw, object.file_content());
    let mut out = Vec::new();
    ZlibDecoder::new(&raw[..]).read_to_end(&mut out).unwrap();
    assert_eq!(out, object.file_content());
}

#[test]
fn test_get_round_trip() {
    let mut store = ObjectStore::new();
    let object = store.hash_object(b"payload bytes", Some(OgitObjectType::Blob));
    let got = store.get_object(&object.hex_string(), None).unwrap();
    assert_eq!(got.variant, OgitObjectType::Blob);
    assert_eq!(got.data, b"payload bytes".to_vec());
    assert_eq!(got.hex_string(), object.hex_string());
}

#[test]
fn test_get_checks_expected_kind() {
    let mut store = ObjectStore::new();
    let tree = store.hash_object(b"", Some(OgitObjectType::Tree));
    let err = store
        .get_object(&tree.hex_string(), Some(OgitObjectType::Blob))
        .unwrap_err();
    assert_eq!(
        err,
        OgitError::ObjectTypeMismatch {
            expected: OgitObjectType::Blob,
            got: OgitObjectType::Tree,
        }
    );
}

#[test]
fn test_get_missing_is_not_found() {
    let store = ObjectStore::new();
    let err = store
        .get_object("0000000000000000000000000000000000000000", None)
        .unwrap_err();
    assert_eq!(err, OgitError::NotFound);
}

#[test]
fn test_corrupt_stored_bytes_are_invalid() {
    let mut store = ObjectStore::new();
    store.insert_raw(
        "1111111111111111111111111111111111111111".to_string(),
        vec![1, 2, 3],
    );
    let err = store
        .get_object("1111111111111111111111111111111111111111", None)
        .unwrap_err();
    assert_eq!(err, OgitError::InvalidObject);
}

#[test]
fn test_head_starts_unset() {
    let mut store = ObjectStore::new();
    assert_eq!(store.head_id(), None);
    store.set_head("abcd".to_string());
    assert_eq!(store.head_id(), Some("abcd".to_string()));
}
