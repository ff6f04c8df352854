//! Serialization and parsing of blobs, trees, commits, and signatures.

use cobra::object::Object;
use cobra::signature::Signature;

#[test]
fn test_blob_serialization() {
    let data = b"hello";
    let blob = Object::new_blob(data.to_vec());
    let serialized = blob.serialize();
    assert_eq!(serialized, data);
}

#[test]
fn test_tree_serialization() {
    let mut tree = Object::new_tree();
    let hash = "1234567890123456789012345678901234567890".to_string();
    tree.add_tree_entry("test.txt".to_string(), 0o100644, hash.clone())
        .unwrap();

    let serialized = tree.serialize();
    let parsed = Object::parse_tree(&serialized).unwrap();

    match parsed {
        Object::Tree(entries) => {
            assert_eq!(entries.len(), 1);
            assert_eq!(entries[0].name, "test.txt");
            assert_eq!(entries[0].mode, 0o100644);
            assert_eq!(entries[0].hash, hash);
        }
        _ => panic!("Expected tree object"),
    }
}

#[test]
fn test_commit_serialization() {
    let author = Signature::new("John Doe".to_string(), "john@example.com".to_string());
    let committer = Signature::new("Jane Doe".to_string(), "jane@example.com".to_string());

    let commit = Object::new_commit(
        "abcdef".to_string(),
        vec!["123456".to_string()],
        author.clone(),
        committer.clone(),
        "Initial commit".to_string(),
    );

    let serialized = commit.serialize();
    let parsed = Object::parse_commit(&serialized).unwrap();

    match parsed {
        Object::Commit {
            tree,
            parents,
            author,
            committer,
            message,
        } => {
            assert_eq!(tree, "abcdef");
            assert_eq!(parents, vec!["123456"]);
            assert_eq!(author.name, "John Doe");
            assert_eq!(author.email, "john@example.com");
            assert_eq!(committer.name, "Jane Doe");
            assert_eq!(committer.email, "jane@example.com");
            assert_eq!(message, "Initial commit");
        }
        _ => panic!("Expected commit object"),
    }
}

#[test]
fn object_test_signature_format() {
    let sig = Signature {
        name: "John Doe".to_string(),
        email: "john@example.com".to_string(),
        timestamp: 1234567890,
        timezone: "-0200".to_string(),
    };

    assert_eq!(sig.format(), "John Doe <john@example.com> 1234567890 -0200");

    let sig = Signature {
        name: "Jane Doe".to_string(),
        email: "jane@example.com".to_string(),
        timestamp: 1234567891,
        timezone: "+0530".to_string(),
    };

    assert_eq!(sig.format(), "Jane Doe <jane@example.com> 1234567891 +0530");
}

#[test]
fn object_test_signature_parse() {
    let input = "John Doe <john@example.com> 1234567890 -0200";
    let sig = Signature::parse(input).unwrap();

    assert_eq!(sig.name, "John Doe");
    assert_eq!(sig.email, "john@example.com");
    assert_eq!(sig.timestamp, 1234567890);
    assert_eq!(sig.timezone, "-0200");
}

#[test]
fn signature_test_signature_parse() {
    let input = "John Doe <john@example.com> 1234567890 +0000";
    let sig = Signature::parse(input).unwrap();
    assert_eq!(sig.name, "John Doe");
    assert_eq!(sig.email, "john@example.com");
    assert_eq!(sig.timestamp, 1234567890);
    assert_eq!(sig.timezone, "+0000");
}

#[test]
fn signature_test_signature_format() {
    let sig = Signature {
        name: "John Doe".to_string(),
        email: "john@example.com".to_string(),
        timestamp: 1234567890,
        timezone: "+0000".to_string(),
    };
    assert_eq!(sig.format(), "John Doe <john@example.com> 1234567890 +0000");
}

#[test]
fn test_signature_roundtrip_with_spaces() {
    let sig = Signature {
        name: "A B C".to_string(),
        email: "a@b.c".to_string(),
        timestamp: 7,
        timezone: "-0930".to_string(),
    };
    let parsed = Signature::parse(&sig.format()).unwrap();
    assert_eq!(parsed.name, "A B C");
    assert_eq!(parsed.email, "a@b.c");
    assert_eq!(parsed.timestamp, 7);
    assert_eq!(parsed.timezone, "-0930");
}

#[test]
fn test_parse_unknown_type() {
    let r = Object::parse("tag", b"anything");
    assert!(matches!(r, Err(cobra::VcsError::DecodeError(_))));
}

#[test]
fn test_parse_commit_missing_author() {
    let text = b"tree abc\n\nmessage";
    let r = Object::parse_commit(text);
    match r {
        Err(cobra::VcsError::DecodeError(m)) => assert!(m.contains("Missing author")),
        _ => panic!("Expected error"),
    }
}

#[test]
fn test_parse_tree_truncated_hash() {
    // A mode, a name, then too few hash bytes.
    let mut data: Vec<u8> = Vec::new();
    data.extend_from_slice(b"100644 a.txt");
    data.push(0);
    data.extend_from_slice(&[0u8; 5]);
    let r = Object::parse_tree(&data);
    match r {
        Err(cobra::VcsError::DecodeError(m)) => assert!(m.contains("incomplete hash")),
        _ => panic!("Expected error"),
    }
}
