use ogit::{OgitError, OgitObject, OgitObjectType};
use sha1::Digest;
use sha1::Sha1;

#[test]
fn test_object_filepath() {
    let object = OgitObject::new("hello world".as_bytes(), OgitObjectType::Blob);
    assert_eq!(
        object.object_database_filepath(),
        "95/d09f2b10159347eece71399a7e2e907ea3df4f"
    );
}

#[test]
fn test_hash() {
    let object = OgitObject::new("hello world".as_bytes(), OgitObjectType::Blob);
    assert_eq!(
        object.hex_string(),
        "95d09f2b10159347eece71399a7e2e907ea3df4f".to_string(),
    );
}

#[test]
fn test_hashing() {
    let mut hasher = Sha1::new();
    hasher.update(b"hello world");
    let result = hasher.finalize();
    let expected: [u8; 20] = [
        0x2a, 0xae, 0x6c, 0x35, 0xc9, 0x4f, 0xcf, 0xb4, 0x15, 0xdb, 0xe9, 0x5f, 0x40, 0x8b, 0x9c,
        0xe9, 0x1e, 0xe8, 0x46, 0xed,
    ];
    assert_eq!(result[..], expected[..]);
}

#[test]
fn test_hash_display() {
    let mut hasher = Sha1::new();
    hasher.update(b"hello world");
    let result = hasher.finalize();
    let display = format!("{:x}", result);
    assert_eq!(display, "2aae6c35c94fcfb415dbe95f408b9ce91ee846ed");
}

#[test]
fn test_display() {
    let variants_with_expected = vec![
        (OgitObjectType::Blob, "blob"),
        (OgitObjectType::Tree, "tree"),
        (OgitObjectType::Commit, "commit"),
    ];
    for (variant, expected) in variants_with_expected {
        assert_eq!(variant.text(), expected);
    }
}

#[test]
fn test_header_of_empty_payload() {
    let object = OgitObject::new(b"", OgitObjectType::Blob);
    assert_eq!(object.file_content(), b"blob 0\0".to_vec());
}

#[test]
fn test_encode_decode_round_trip() {
    let object = OgitObject::new(b"some payload \0 with a NUL", OgitObjectType::Tree);
    let content = object.file_content();
    let back = OgitObject::from_bytes(&content).unwrap();
    assert_eq!(back.variant, OgitObjectType::Tree);
    assert_eq!(back.data, b"some payload \0 with a NUL".to_vec());
    assert_eq!(back.hex_string(), object.hex_string());
}

#[test]
fn test_decode_rejects_unknown_kind() {
    let err = OgitObject::from_bytes(b"bucket 4\0abcd").unwrap_err();
    assert_eq!(err, OgitError::InvalidObject);
    let err = OgitObject::from_bytes(b"no nul here").unwrap_err();
    assert_eq!(err, OgitError::InvalidObject);
}
