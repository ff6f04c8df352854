//! Digest computation and the stored-object header, against known vectors.

use cobra::hash::{create_object_header, hash_object, hash_raw_object};
use cobra::object::Object;
use cobra::store::{decode_object_file, encode_object_file};

#[test]
fn test_hash_object() {
    let test_cases = [
        (b"hello" as &[u8], "aaf4c61ddcc5e8a2dabede0f3b482cd9aea9434d"),
        (b"hello\n" as &[u8], "f572d396fae9206628714fb2ce00f72e94f2258f"),
    ];

    for (input, expected) in test_cases {
        let result = hash_object(input);
        assert_eq!(result, expected, "Failed for input: {:?}", input);
    }
}

#[test]
fn test_hash_raw_object() {
    let test_cases = [
        (b"hello" as &[u8], "b6fc4c620b67d95f953a5c1c1230aaab5db5a1b0"),
        (b"hello\n" as &[u8], "ce013625030ba8dba906f756967f9e9ca394464a"),
    ];

    for (input, expected) in test_cases {
        let result = hash_raw_object("blob", input);
        assert_eq!(result, expected, "Failed for input: {:?}", input);
    }
}

#[test]
fn test_create_object_header() {
    let header = create_object_header("blob", 5);
    assert_eq!(header, b"blob 5\0");
}

#[test]
fn test_object_hash_matches_raw() {
    let blob = Object::new_blob(b"hello".to_vec());
    assert_eq!(blob.hash(), "b6fc4c620b67d95f953a5c1c1230aaab5db5a1b0");
}

#[test]
fn test_stored_object_roundtrip() {
    let blob = Object::new_blob(b"some file content".to_vec());
    let bytes = encode_object_file(&blob);
    // The stored form is compressed; it must differ from the raw payload and
    // decode back to the same object.
    assert_ne!(bytes, b"some file content".to_vec());
    match decode_object_file(&bytes).unwrap() {
        Object::Blob(data) => assert_eq!(data, b"some file content".to_vec()),
        _ => panic!("Expected blob object"),
    }
}

#[test]
fn test_stored_commit_roundtrip() {
    let author = cobra::signature::Signature {
        name: "A".to_string(),
        email: "a@b".to_string(),
        timestamp: 5,
        timezone: "+0000".to_string(),
    };
    let commit = Object::new_commit(
        "t".repeat(40),
        vec!["p".repeat(40)],
        author.clone(),
        author,
        "msg".to_string(),
    );
    let bytes = encode_object_file(&commit);
    match decode_object_file(&bytes).unwrap() {
        Object::Commit { tree, parents, message, .. } => {
            assert_eq!(tree, "t".repeat(40));
            assert_eq!(parents, vec!["p".repeat(40)]);
            assert_eq!(message, "msg");
        }
        _ => panic!("Expected commit object"),
    }
}

#[test]
fn test_corrupt_object_refused() {
    let r = decode_object_file(b"not a zlib stream at all");
    assert!(matches!(r, Err(cobra::VcsError::CorruptObject(_))));
}
