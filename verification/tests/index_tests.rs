//! The staging index: operations and the binary round trip.

use cobra::index::{Index, IndexEntry};

fn entry(path: &str, hash: &str, ctime: u64, mtime: u64, size: u64) -> IndexEntry {
    IndexEntry {
        ctime,
        mtime,
        dev: 0,
        ino: 0,
        mode: 0o100644,
        uid: 0,
        gid: 0,
        size,
        hash: hash.to_string(),
        path: path.to_string(),
    }
}

#[test]
fn test_index_operations() {
    let mut index = Index::new();
    let e = entry("test.txt", "abcdef", 12345, 12345, 100);

    index.add_entry(e.clone());
    assert!(index.contains("test.txt"));

    let retrieved = index.get_entry("test.txt").unwrap();
    assert_eq!(retrieved.hash, "abcdef");
    assert_eq!(retrieved.size, 100);

    let entries: Vec<_> = index.entries().iter().collect();
    assert_eq!(entries.len(), 1);
    assert_eq!(entries[0].path, "test.txt");
}

#[test]
fn test_index_serialization() {
    let mut index = Index::new();
    index.add_entry(entry("test1.txt", &"a".repeat(40), 12345, 12345, 100));
    index.add_entry(entry("test2.txt", &"b".repeat(40), 67890, 67890, 200));

    let bytes = index.to_bytes();
    let read_index = Index::load(&bytes).unwrap();

    assert_eq!(read_index.entries().len(), 2);
    assert!(read_index.contains("test1.txt"));
    assert!(read_index.contains("test2.txt"));

    let entry1 = read_index.get_entry("test1.txt").unwrap();
    assert_eq!(entry1.size, 100);
    assert_eq!(entry1.hash, "a".repeat(40));
}

#[test]
fn test_index_roundtrip_all_fields() {
    let mut index = Index::new();
    let full = IndexEntry {
        ctime: 11,
        mtime: 22,
        dev: 33,
        ino: 44,
        mode: 0o100755,
        uid: 55,
        gid: 66,
        size: 77,
        hash: "c".repeat(40),
        path: "dir/file.bin".to_string(),
    };
    index.add_entry(full);
    index.add_entry(entry("other.txt", &"d".repeat(40), 1, 2, 3));

    let bytes = index.to_bytes();
    let read_index = Index::load(&bytes).unwrap();
    let e = read_index.get_entry("dir/file.bin").unwrap();
    assert_eq!(e.ctime, 11);
    assert_eq!(e.mtime, 22);
    assert_eq!(e.dev, 33);
    assert_eq!(e.ino, 44);
    assert_eq!(e.mode, 0o100755);
    assert_eq!(e.uid, 55);
    assert_eq!(e.gid, 66);
    assert_eq!(e.size, 77);
    assert_eq!(e.hash, "c".repeat(40));
    assert_eq!(e.path, "dir/file.bin");
    let o = read_index.get_entry("other.txt").unwrap();
    assert_eq!((o.ctime, o.mtime, o.size), (1, 2, 3));
}

#[test]
fn test_index_replaces_same_path() {
    let mut index = Index::new();
    index.add_entry(entry("a.txt", &"a".repeat(40), 1, 1, 1));
    index.add_entry(entry("a.txt", &"b".repeat(40), 2, 2, 2));
    assert_eq!(index.entries().len(), 1);
    assert_eq!(index.get_entry("a.txt").unwrap().hash, "b".repeat(40));
}

#[test]
fn test_index_truncated_refused() {
    let r = Index::load(&[0, 0]);
    assert!(matches!(r, Err(cobra::VcsError::DecodeError(_))));
    let r2 = Index::load(&[0, 0, 0, 1, 9]);
    assert!(matches!(r2, Err(cobra::VcsError::DecodeError(_))));
}
