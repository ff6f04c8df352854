//! The tree builder and the object store's idempotent writes.

use cobra::index::{Index, IndexEntry};
use cobra::object::Object;
use cobra::store::ObjectStore;
use cobra::tree::{build_tree_from_index, Tree};

fn entry(path: &str, hash: &str) -> IndexEntry {
    IndexEntry {
        ctime: 0,
        mtime: 0,
        dev: 0,
        ino: 0,
        mode: 0o100644,
        uid: 0,
        gid: 0,
        size: 0,
        hash: hash.to_string(),
        path: path.to_string(),
    }
}

#[test]
fn test_build_tree_single_file() {
    let mut index = Index::new();
    index.add_entry(entry(
        "test.txt",
        "1234567890123456789012345678901234567890",
    ));
    let mut store = ObjectStore::new();

    let tree = build_tree_from_index(&index, &mut store).unwrap();
    match tree {
        Object::Tree(entries) => {
            assert_eq!(entries.len(), 1);
            let e = &entries[0];
            assert_eq!(e.name, "test.txt");
            assert_eq!(e.mode, 0o100644);
            assert_eq!(e.hash, "1234567890123456789012345678901234567890");
        }
        _ => panic!("Expected tree object"),
    }
}

#[test]
fn test_build_tree_nested() {
    let mut index = Index::new();
    index.add_entry(entry(
        "src/main.rs",
        "1111111111111111111111111111111111111111",
    ));
    index.add_entry(entry(
        "src/lib.rs",
        "2222222222222222222222222222222222222222",
    ));
    let mut store = ObjectStore::new();

    let tree = build_tree_from_index(&index, &mut store).unwrap();
    match tree {
        Object::Tree(entries) => {
            assert_eq!(entries.len(), 1);
            let src_entry = &entries[0];
            assert_eq!(src_entry.name, "src");
            assert_eq!(src_entry.mode, 0o040000);

            match store.get(&src_entry.hash).unwrap() {
                Object::Tree(entries) => {
                    assert_eq!(entries.len(), 2);
                    let lib_entry = &entries[0];
                    let main_entry = &entries[1];
                    assert_eq!(lib_entry.name, "lib.rs");
                    assert_eq!(lib_entry.mode, 0o100644);
                    assert_eq!(lib_entry.hash, "2222222222222222222222222222222222222222");
                    assert_eq!(main_entry.name, "main.rs");
                    assert_eq!(main_entry.mode, 0o100644);
                    assert_eq!(main_entry.hash, "1111111111111111111111111111111111111111");
                }
                _ => panic!("Expected tree object"),
            }
        }
        _ => panic!("Expected tree object"),
    }
}

#[test]
fn test_build_tree_two_toplevel_entries() {
    let mut index = Index::new();
    index.add_entry(entry("a.txt", &"1".repeat(40)));
    index.add_entry(entry("dir/b.txt", &"2".repeat(40)));
    let mut store = ObjectStore::new();

    let tree = build_tree_from_index(&index, &mut store).unwrap();
    match tree {
        Object::Tree(entries) => {
            assert_eq!(entries.len(), 2);
            assert_eq!(entries[0].name, "a.txt");
            assert_eq!(entries[0].mode, 0o100644);
            assert_eq!(entries[1].name, "dir");
            assert_eq!(entries[1].mode, 0o040000);
            match store.get(&entries[1].hash).unwrap() {
                Object::Tree(sub) => {
                    assert_eq!(sub.len(), 1);
                    assert_eq!(sub[0].name, "b.txt");
                    assert_eq!(sub[0].hash, "2".repeat(40));
                }
                _ => panic!("Expected tree object"),
            }
        }
        _ => panic!("Expected tree object"),
    }
}

#[test]
fn test_build_tree_empty_index() {
    let index = Index::new();
    let mut store = ObjectStore::new();
    let tree = build_tree_from_index(&index, &mut store).unwrap();
    match tree {
        Object::Tree(entries) => assert_eq!(entries.len(), 0),
        _ => panic!("Expected tree object"),
    }
}

#[test]
fn test_build_tree_bad_path_refused() {
    let mut index = Index::new();
    index.add_entry(entry("dir/", &"3".repeat(40)));
    let mut store = ObjectStore::new();
    let r = build_tree_from_index(&index, &mut store);
    assert!(matches!(r, Err(cobra::VcsError::InvalidArgument(_))));
}

#[test]
fn test_tree_order_changes_hash() {
    let h1 = "1".repeat(40);
    let h2 = "2".repeat(40);
    let mut t1 = Tree::new();
    t1.add_entry("a".to_string(), 0o100644, h1.clone());
    t1.add_entry("b".to_string(), 0o100644, h2.clone());
    let mut t2 = Tree::new();
    t2.add_entry("b".to_string(), 0o100644, h2);
    t2.add_entry("a".to_string(), 0o100644, h1);

    let o1 = t1.to_object();
    let o2 = t2.to_object();
    assert_ne!(o1.serialize(), o2.serialize());
    assert_ne!(o1.hash(), o2.hash());
}

#[test]
fn test_same_tree_written_twice_is_idempotent() {
    let mut store = ObjectStore::new();
    let mut t = Tree::new();
    t.add_entry("a".to_string(), 0o100644, "4".repeat(40));

    let h1 = store.put(t.to_object());
    let count_after_first = store.count();
    let h2 = store.put(t.to_object());
    assert_eq!(h1, h2);
    assert_eq!(store.count(), count_after_first);
}

#[test]
fn test_store_get_missing_is_not_found() {
    let store = ObjectStore::new();
    let r = store.get(&"5".repeat(40));
    assert!(matches!(r, Err(cobra::VcsError::NotFound(_))));
}

#[test]
fn test_blob_hash_stable() {
    let b1 = Object::new_blob(b"payload".to_vec());
    let b2 = Object::new_blob(b"payload".to_vec());
    assert_eq!(b1.hash(), b1.hash());
    assert_eq!(b1.hash(), b2.hash());
}

#[test]
fn test_build_tree_order_independent() {
    let mut index1 = Index::new();
    index1.add_entry(entry("b.txt", &"1".repeat(40)));
    index1.add_entry(entry("a.txt", &"2".repeat(40)));
    index1.add_entry(entry("dir/c.txt", &"3".repeat(40)));
    let mut index2 = Index::new();
    index2.add_entry(entry("dir/c.txt", &"3".repeat(40)));
    index2.add_entry(entry("a.txt", &"2".repeat(40)));
    index2.add_entry(entry("b.txt", &"1".repeat(40)));

    let mut store1 = ObjectStore::new();
    let mut store2 = ObjectStore::new();
    let root1 = build_tree_from_index(&index1, &mut store1).unwrap();
    let root2 = build_tree_from_index(&index2, &mut store2).unwrap();
    assert_eq!(root1.hash(), root2.hash());
}

#[test]
fn test_build_tree_walk_two_levels() {
    let mut index = Index::new();
    index.add_entry(entry("a/b/c.txt", &"6".repeat(40)));
    let mut store = ObjectStore::new();

    let root = build_tree_from_index(&index, &mut store).unwrap();
    let a_hash = match root {
        Object::Tree(entries) => {
            assert_eq!(entries.len(), 1);
            assert_eq!(entries[0].name, "a");
            assert_eq!(entries[0].mode, 0o040000);
            entries[0].hash.clone()
        }
        _ => panic!("Expected tree object"),
    };
    let b_hash = match store.get(&a_hash).unwrap() {
        Object::Tree(entries) => {
            assert_eq!(entries.len(), 1);
            assert_eq!(entries[0].name, "b");
            assert_eq!(entries[0].mode, 0o040000);
            entries[0].hash.clone()
        }
        _ => panic!("Expected tree object"),
    };
    match store.get(&b_hash).unwrap() {
        Object::Tree(entries) => {
            assert_eq!(entries.len(), 1);
            assert_eq!(entries[0].name, "c.txt");
            assert_eq!(entries[0].mode, 0o100644);
            assert_eq!(entries[0].hash, "6".repeat(40));
        }
        _ => panic!("Expected tree object"),
    }
}

#[test]
fn test_store_hashes_lists_everything() {
    let mut store = ObjectStore::new();
    let h1 = store.put(Object::new_blob(b"one".to_vec()));
    let h2 = store.put(Object::new_blob(b"two".to_vec()));
    let hashes = store.hashes();
    assert_eq!(hashes, vec![h1, h2]);
}

