//! The stash log: creating, listing, addressing and dropping stashes.

use cobra::object::Object;
use cobra::refs::RefStore;
use cobra::store::ObjectStore;
use cobra::VcsError;

fn init_store() -> RefStore {
    let mut r = RefStore::new();
    r.create_initial_refs();
    r.update_ref("refs/heads/main", "main_commit");
    r
}

fn tree_hash() -> String {
    "0".repeat(40)
}

#[test]
fn test_create_stash() {
    let mut ref_store = init_store();
    let mut store = ObjectStore::new();

    let stash_hash = ref_store
        .create_stash(&mut store, &tree_hash(), Some("Test stash"))
        .unwrap();
    assert!(!stash_hash.is_empty());

    let stashes = ref_store.list_stashes();
    assert_eq!(stashes.len(), 1);
    assert_eq!(stashes[0].0, "stash@{0}");
    assert_eq!(stashes[0].1, stash_hash);
}

#[test]
fn test_list_stashes() {
    let mut ref_store = init_store();
    let mut store = ObjectStore::new();

    ref_store
        .create_stash(&mut store, &tree_hash(), Some("First stash"))
        .unwrap();
    ref_store
        .create_stash(&mut store, &tree_hash(), Some("Second stash"))
        .unwrap();

    let stashes = ref_store.list_stashes();
    assert_eq!(stashes.len(), 2);
    assert_eq!(stashes[0].0, "stash@{0}");
    assert_eq!(stashes[1].0, "stash@{1}");
}

#[test]
fn test_get_stash() {
    let mut ref_store = init_store();
    let mut store = ObjectStore::new();

    let stash_hash = ref_store
        .create_stash(&mut store, &tree_hash(), Some("Test stash"))
        .unwrap();

    let retrieved_hash = ref_store.get_stash("stash@{0}");
    assert_eq!(retrieved_hash, Some(stash_hash));

    let non_existent = ref_store.get_stash("stash@{1}");
    assert_eq!(non_existent, None);
}

#[test]
fn test_get_stash_large_index_is_none() {
    let mut ref_store = init_store();
    let mut store = ObjectStore::new();
    ref_store
        .create_stash(&mut store, &tree_hash(), Some("msg"))
        .unwrap();
    assert_eq!(ref_store.get_stash("stash@{5}"), None);
}

#[test]
fn test_get_stash_raw_hash_passthrough() {
    let ref_store = init_store();
    let raw = "e".repeat(40);
    assert_eq!(ref_store.get_stash(&raw), Some(raw.clone()));
}

#[test]
fn test_drop_stash() {
    let mut ref_store = init_store();
    let mut store = ObjectStore::new();

    ref_store
        .create_stash(&mut store, &tree_hash(), Some("First stash"))
        .unwrap();
    ref_store
        .create_stash(&mut store, &tree_hash(), Some("Second stash"))
        .unwrap();

    let stashes = ref_store.list_stashes();
    assert_eq!(stashes.len(), 2);

    ref_store.drop_stash("stash@{0}").unwrap();

    let stashes_after = ref_store.list_stashes();
    assert_eq!(stashes_after.len(), 1);
    assert_eq!(stashes_after[0].0, "stash@{0}");
}

#[test]
fn test_drop_nonexistent_stash() {
    let mut ref_store = init_store();
    let result = ref_store.drop_stash("stash@{0}");
    assert!(result.is_err());
    match result {
        Err(e) => {
            assert!(matches!(e, VcsError::NotFound(_)));
            assert!(e.message().contains("does not exist"));
        }
        _ => panic!("Expected error"),
    }
}

#[test]
fn test_drop_malformed_stash_ref() {
    let mut ref_store = init_store();
    assert!(matches!(
        ref_store.drop_stash("stash@{x}"),
        Err(VcsError::InvalidArgument(_))
    ));
    assert!(matches!(
        ref_store.drop_stash("not-a-ref"),
        Err(VcsError::InvalidArgument(_))
    ));
}

#[test]
fn test_stash_push() {
    let mut ref_store = init_store();
    let mut store = ObjectStore::new();
    let stash_hash = ref_store
        .create_stash(&mut store, &tree_hash(), Some("Test stash"))
        .unwrap();
    assert!(!stash_hash.is_empty());

    let stashes = ref_store.list_stashes();
    assert_eq!(stashes.len(), 1);
}

#[test]
fn test_stash_list() {
    let mut ref_store = init_store();
    let mut store = ObjectStore::new();
    ref_store
        .create_stash(&mut store, &tree_hash(), Some("First stash"))
        .unwrap();
    ref_store
        .create_stash(&mut store, &tree_hash(), Some("Second stash"))
        .unwrap();

    let stashes = ref_store.list_stashes();
    assert_eq!(stashes.len(), 2);
    assert_eq!(stashes[0].0, "stash@{0}");
    assert_eq!(stashes[1].0, "stash@{1}");
}

#[test]
fn test_stash_show() {
    let mut ref_store = init_store();
    let mut store = ObjectStore::new();
    let stash_hash = ref_store
        .create_stash(&mut store, &tree_hash(), Some("Test stash message"))
        .unwrap();

    let retrieved_hash = ref_store.get_stash("stash@{0}");
    assert_eq!(retrieved_hash, Some(stash_hash.clone()));

    match store.get(&stash_hash).unwrap() {
        Object::Commit { parents, message, .. } => {
            assert_eq!(parents, &vec!["main_commit".to_string()]);
            assert_eq!(message, "Test stash message");
        }
        _ => panic!("Expected commit object"),
    }
}

#[test]
fn test_stash_drop() {
    let mut ref_store = init_store();
    let mut store = ObjectStore::new();
    ref_store
        .create_stash(&mut store, &tree_hash(), Some("First stash"))
        .unwrap();
    ref_store
        .create_stash(&mut store, &tree_hash(), Some("Second stash"))
        .unwrap();

    let stashes = ref_store.list_stashes();
    assert_eq!(stashes.len(), 2);

    ref_store.drop_stash("stash@{0}").unwrap();

    let stashes_after = ref_store.list_stashes();
    assert_eq!(stashes_after.len(), 1);
}

#[test]
fn test_stash_drop_nonexistent() {
    let mut ref_store = init_store();
    let result = ref_store.drop_stash("stash@{0}");
    assert!(result.is_err());
    match result {
        Err(e) => {
            assert!(matches!(e, VcsError::NotFound(_)));
            assert!(e.message().contains("does not exist"));
        }
        _ => panic!("Expected error"),
    }
}

#[test]
fn test_stash_default_message() {
    let mut ref_store = init_store();
    let mut store = ObjectStore::new();
    let h = ref_store.create_stash(&mut store, &tree_hash(), None).unwrap();
    match store.get(&h).unwrap() {
        Object::Commit { message, .. } => assert_eq!(message, "WIP on current branch"),
        _ => panic!("Expected commit object"),
    }
}
