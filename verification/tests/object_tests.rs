use git_rs::object::{
    compress_object, create_object, hash_object, object_path, read_object, write_object,
    ObjectError,
};
use std::path::PathBuf;
use tempfile::tempdir;

#[test]
fn test_create_object_formatting() {
    let result = create_object("blob", b"test content").unwrap();
    let mut expected = b"blob 12\0".to_vec();
    expected.extend_from_slice(b"test content");
    assert_eq!(result, expected);
}

#[test]
fn test_create_object_empty() {
    let result = create_object("blob", b"").unwrap();
    assert_eq!(result, b"blob 0\0".to_vec());
}

#[test]
fn test_hash_object_known_value() {
    let obj = b"blob 0\0".to_vec();
    let hash = hash_object(&obj);
    assert_eq!(hash, "e69de29bb2d1d6434b8b29ae775ad8c2e48c5391");
}

#[test]
fn test_object_path_valid() {
    let dir = tempdir().unwrap();
    let hash = "a1b2c3d4e5f6a1b2c3d4e5f6a1b2c3d4e5f6a1b2";
    let path = object_path(hash, dir.path().to_str().unwrap()).unwrap();
    assert_eq!(
        PathBuf::from(path),
        dir.path()
            .join(".git/objects/a1/b2c3d4e5f6a1b2c3d4e5f6a1b2c3d4e5f6a1b2")
    );
}

#[test]
fn test_object_path_too_short() {
    let dir = tempdir().unwrap();
    let result = object_path("abc", dir.path().to_str().unwrap());
    assert!(matches!(
        result.unwrap_err(),
        ObjectError::InvalidHashLength
    ));
}

#[test]
fn test_write_and_read_roundtrip() {
    let dir = tempdir().unwrap();
    let content = b"hello world";
    let stored = write_object("blob", content, dir.path().to_str().unwrap()).unwrap();
    let (kind, read_content) = read_object(&stored.data).unwrap();

    assert_eq!(kind, "blob");
    assert_eq!(read_content, content);
}

#[test]
fn test_read_object_corrupt_missing_null() {
    let stored = compress_object(b"blob 5hello").unwrap();
    let result = read_object(&stored);
    assert!(matches!(
        result.unwrap_err(),
        ObjectError::MissingNullSeparator
    ));
}

#[test]
fn test_read_object_corrupt_size_mismatch() {
    let stored = compress_object(b"blob 99\0hello").unwrap();
    let result = read_object(&stored);
    assert!(matches!(
        result.unwrap_err(),
        ObjectError::SizeMismatch { .. }
    ));
}

#[test]
fn object_path_rejects_split_inside_character() {
    // 40 bytes, but byte 2 falls inside the two-byte character 'é'.
    let hash = "aé4567890123456789012345678901234567890";
    assert_eq!(hash.len(), 40);
    assert!(matches!(
        object_path(hash, "/repo").unwrap_err(),
        ObjectError::InvalidHashLength
    ));
}

#[test]
fn object_path_joins_like_path_join() {
    let hash = "e69de29bb2d1d6434b8b29ae775ad8c2e48c5391";
    assert_eq!(
        object_path(hash, "/repo").unwrap(),
        "/repo/.git/objects/e6/9de29bb2d1d6434b8b29ae775ad8c2e48c5391"
    );
    assert_eq!(
        object_path(hash, "/repo/").unwrap(),
        "/repo/.git/objects/e6/9de29bb2d1d6434b8b29ae775ad8c2e48c5391"
    );
    assert_eq!(
        object_path(hash, "").unwrap(),
        ".git/objects/e6/9de29bb2d1d6434b8b29ae775ad8c2e48c5391"
    );
}

#[test]
fn write_object_names_the_hash_of_the_framed_object() {
    let stored = write_object("blob", b"", "/repo").unwrap();
    assert_eq!(stored.hash, "e69de29bb2d1d6434b8b29ae775ad8c2e48c5391");
    assert_eq!(
        stored.path,
        "/repo/.git/objects/e6/9de29bb2d1d6434b8b29ae775ad8c2e48c5391"
    );
    assert_ne!(stored.data, b"blob 0\0".to_vec());
}

#[test]
fn hash_object_of_hello_blob() {
    let obj = create_object("blob", b"hello\n").unwrap();
    assert_eq!(hash_object(&obj), "ce013625030ba8dba906f756967f9e9ca394464a");
}

#[test]
fn read_object_rejects_bytes_that_are_not_zlib() {
    assert!(matches!(
        read_object(b"not a zlib stream").unwrap_err(),
        ObjectError::Io(_)
    ));
}

#[test]
fn read_object_rejects_header_without_size() {
    let stored = compress_object(b"blob\0hello").unwrap();
    assert!(matches!(
        read_object(&stored).unwrap_err(),
        ObjectError::MissingSizeDeclaration
    ));
}

#[test]
fn read_object_rejects_non_numeric_size() {
    let stored = compress_object(b"blob 1x\0h").unwrap();
    assert!(matches!(
        read_object(&stored).unwrap_err(),
        ObjectError::ParseInt(_)
    ));
}

#[test]
fn read_object_rejects_non_utf8_header() {
    let stored = compress_object(b"bl\xffb 1\0h").unwrap();
    assert!(matches!(
        read_object(&stored).unwrap_err(),
        ObjectError::Utf8(_)
    ));
}

#[test]
fn read_object_accepts_plus_sign_in_size() {
    let stored = compress_object(b"blob +5\0hello").unwrap();
    let (kind, content) = read_object(&stored).unwrap();
    assert_eq!(kind, "blob");
    assert_eq!(content, b"hello".to_vec());
}

#[test]
fn size_mismatch_reports_both_sizes() {
    let stored = compress_object(b"blob 99\0hello").unwrap();
    match read_object(&stored).unwrap_err() {
        ObjectError::SizeMismatch { expected, actual } => {
            assert_eq!(expected, 99);
            assert_eq!(actual, 5);
        }
        other => panic!("unexpected error {:?}", other),
    }
}

#[test]
fn kind_with_space_does_not_read_back() {
    // A kind holding a space is split at that space when read back.
    let stored = write_object("my blob", b"x", "/repo").unwrap();
    assert!(matches!(
        read_object(&stored.data).unwrap_err(),
        ObjectError::ParseInt(_)
    ));
}

#[test]
fn same_content_same_object_in_any_repository() {
    let a = write_object("blob", b"same bytes", "/one").unwrap();
    let b = write_object("blob", b"same bytes", "/two/").unwrap();
    assert_eq!(a.hash, b.hash);
    assert_eq!(a.data, b.data);
    assert_eq!(a.path, format!("/one/.git/objects/{}/{}", &a.hash[..2], &a.hash[2..]));
    assert_eq!(b.path, format!("/two/.git/objects/{}/{}", &b.hash[..2], &b.hash[2..]));
}
