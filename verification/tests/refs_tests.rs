//! The reference store: branch creation, listing, switching, deletion,
//! merging and rebasing over the in-memory ref namespace.

use cobra::object::Object;
use cobra::refs::RefStore;
use cobra::store::ObjectStore;
use cobra::VcsError;

fn init_store() -> RefStore {
    let mut r = RefStore::new();
    r.create_initial_refs();
    r
}

#[test]
fn test_create_branch() {
    let mut ref_store = init_store();
    ref_store.create_branch("feature").unwrap();

    let branch_content = ref_store.read_ref("refs/heads/feature");
    assert!(branch_content.is_some());

    let main_content = ref_store.read_ref("refs/heads/main");
    assert_eq!(branch_content, main_content);
}

#[test]
fn test_create_branch_with_commit() {
    let mut ref_store = init_store();
    let commit_hash = "abc123def456";
    ref_store.update_ref("refs/heads/main", commit_hash);

    ref_store.create_branch("feature").unwrap();

    let branch_content = ref_store.read_ref("refs/heads/feature");
    assert_eq!(branch_content, Some(commit_hash.to_string()));
}

#[test]
fn test_create_duplicate_branch() {
    let mut ref_store = init_store();
    ref_store.create_branch("feature").unwrap();

    let result = ref_store.create_branch("feature");
    assert!(result.is_err());
    match result {
        Err(e) => {
            assert!(matches!(e, VcsError::AlreadyExists(_)));
            assert!(e.message().contains("already exists"));
        }
        _ => panic!("Expected error"),
    }
}

#[test]
fn test_list_branches() {
    let mut ref_store = init_store();
    ref_store.create_branch("feature1").unwrap();
    ref_store.create_branch("feature2").unwrap();

    let branches = ref_store.list_branches();
    let branch_names: Vec<String> = branches.iter().map(|(name, _)| name.clone()).collect();
    assert!(branch_names.contains(&"main".to_string()));
    assert!(branch_names.contains(&"feature1".to_string()));
    assert!(branch_names.contains(&"feature2".to_string()));
    assert_eq!(branches.len(), 3);
}

#[test]
fn test_list_branches_empty() {
    let ref_store = RefStore::new();
    let branches = ref_store.list_branches();
    assert_eq!(branches.len(), 0);
}

#[test]
fn test_delete_branch() {
    let mut ref_store = init_store();
    ref_store.create_branch("feature").unwrap();

    let branches = ref_store.list_branches();
    let branch_names: Vec<String> = branches.iter().map(|(name, _)| name.clone()).collect();
    assert!(branch_names.contains(&"feature".to_string()));

    ref_store.delete_branch("feature").unwrap();

    let branches_after = ref_store.list_branches();
    let branch_names_after: Vec<String> =
        branches_after.iter().map(|(name, _)| name.clone()).collect();
    assert!(!branch_names_after.contains(&"feature".to_string()));
}

#[test]
fn test_delete_nonexistent_branch() {
    let mut ref_store = init_store();
    let result = ref_store.delete_branch("nonexistent");
    assert!(result.is_err());
    match result {
        Err(e) => {
            assert!(matches!(e, VcsError::NotFound(_)));
            assert!(e.message().contains("does not exist"));
        }
        _ => panic!("Expected error"),
    }
}

#[test]
fn test_delete_current_branch() {
    let mut ref_store = init_store();
    ref_store.create_branch("feature").unwrap();
    ref_store.update_head("ref: refs/heads/feature");

    let result = ref_store.delete_branch("feature");
    assert!(result.is_err());
    match result {
        Err(e) => {
            assert!(matches!(e, VcsError::InvalidArgument(_)));
            assert!(e.message().contains("Cannot delete the current branch"));
        }
        _ => panic!("Expected error"),
    }
}

#[test]
fn test_merge_branch() {
    let mut ref_store = init_store();
    let mut store = ObjectStore::new();
    ref_store.create_branch("feature").unwrap();
    ref_store.update_ref("refs/heads/main", "main_commit");
    ref_store.update_ref("refs/heads/feature", "feature_commit");

    ref_store.merge_branch(&mut store, "feature").unwrap();

    let main_commit = ref_store.read_ref("refs/heads/main");
    assert!(main_commit.is_some());
    assert_ne!(main_commit.unwrap(), "main_commit");
}

#[test]
fn test_merge_produces_two_parents() {
    let mut ref_store = init_store();
    let mut store = ObjectStore::new();
    ref_store.update_ref("refs/heads/main", "main_commit");
    ref_store.update_ref("refs/heads/feature", "feature_commit");

    ref_store.merge_branch(&mut store, "feature").unwrap();

    let merge_hash = ref_store.read_ref("refs/heads/main").unwrap();
    match store.get(&merge_hash).unwrap() {
        Object::Commit { tree, parents, message, .. } => {
            assert_eq!(tree, "main_commit");
            assert_eq!(
                parents,
                &vec!["main_commit".to_string(), "feature_commit".to_string()]
            );
            assert_eq!(message, "Merge branch 'feature'");
        }
        _ => panic!("Expected commit object"),
    }
}

#[test]
fn test_merge_nonexistent_branch() {
    let mut ref_store = init_store();
    let mut store = ObjectStore::new();
    let result = ref_store.merge_branch(&mut store, "nonexistent");
    assert!(result.is_err());
    match result {
        Err(e) => {
            assert!(matches!(e, VcsError::NotFound(_)));
            assert!(e.message().contains("does not exist"));
        }
        _ => panic!("Expected error"),
    }
}

#[test]
fn test_merge_same_branch() {
    let mut ref_store = init_store();
    let mut store = ObjectStore::new();
    ref_store.update_ref("refs/heads/main", "same_commit");
    ref_store.update_ref("refs/heads/feature", "same_commit");

    let result = ref_store.merge_branch(&mut store, "feature");
    assert!(result.is_err());
    match result {
        Err(e) => {
            assert!(matches!(e, VcsError::InvalidArgument(_)));
            assert!(e.message().contains("Cannot merge branch"));
        }
        _ => panic!("Expected error"),
    }
}

#[test]
fn test_switch_branch_success() {
    let mut ref_store = init_store();
    ref_store.create_branch("feature").unwrap();
    ref_store.switch_branch("feature").unwrap();

    let head_content = ref_store.read_head();
    assert_eq!(head_content, Some("ref: refs/heads/feature".to_string()));
}

#[test]
fn test_switch_branch_not_found() {
    let mut ref_store = init_store();
    let result = ref_store.switch_branch("nonexistent");
    assert!(result.is_err());
    match result {
        Err(e) => {
            assert!(matches!(e, VcsError::NotFound(_)));
            assert!(e.message().contains("does not exist"));
        }
        _ => panic!("Expected error"),
    }
}

#[test]
fn test_create_and_list_branches() {
    let mut ref_store = init_store();
    ref_store.create_branch("feature1").unwrap();
    ref_store.create_branch("feature2").unwrap();

    let branches = ref_store.list_branches();
    let branch_names: Vec<String> = branches.iter().map(|(name, _)| name.clone()).collect();
    assert!(branch_names.contains(&"main".to_string()));
    assert!(branch_names.contains(&"feature1".to_string()));
    assert!(branch_names.contains(&"feature2".to_string()));
    assert_eq!(branches.len(), 3);
}

#[test]
fn test_rebase_branch() {
    let mut ref_store = init_store();
    let mut store = ObjectStore::new();
    ref_store.create_branch("base").unwrap();
    ref_store.create_branch("feature").unwrap();
    ref_store.update_ref("refs/heads/base", "base_commit");
    ref_store.update_ref("refs/heads/feature", "feature_commit");
    ref_store.update_head("ref: refs/heads/feature");

    let target_commit = ref_store.read_ref("refs/heads/base").unwrap();
    let current_commit = ref_store.read_ref("refs/heads/feature").unwrap();
    assert_ne!(current_commit, target_commit);

    ref_store.rebase(&mut store, "base").unwrap();
    let new_commit = ref_store.read_ref("refs/heads/feature").unwrap();
    match store.get(&new_commit).unwrap() {
        Object::Commit { parents, .. } => {
            assert_eq!(parents, &vec!["base_commit".to_string()]);
        }
        _ => panic!("Expected commit object"),
    }
}

#[test]
fn test_rebase_nonexistent_branch() {
    let ref_store = init_store();
    let exists = ref_store.read_ref("refs/heads/nonexistent").is_some();
    assert!(!exists);
}

#[test]
fn test_rebase_onto_same_branch() {
    let mut ref_store = init_store();
    let mut store = ObjectStore::new();
    ref_store.create_branch("test").unwrap();
    ref_store.update_ref("refs/heads/test", "same_commit");
    ref_store.update_head("ref: refs/heads/test");

    let target_commit = ref_store.read_ref("refs/heads/test").unwrap();
    let head_content = ref_store.read_head().unwrap();
    assert!(head_content.starts_with("ref: "));
    let current_commit = ref_store
        .read_ref(head_content.strip_prefix("ref: ").unwrap())
        .unwrap();
    assert_eq!(current_commit, target_commit);

    let result = ref_store.rebase(&mut store, "test");
    assert!(matches!(result, Err(VcsError::InvalidArgument(_))));
}

#[test]
fn test_checkout_branch() {
    let mut ref_store = init_store();
    ref_store.create_branch("test_branch").unwrap();

    let branch_ref = "refs/heads/test_branch";
    if ref_store.read_ref(branch_ref).is_some() {
        ref_store.update_head(&format!("ref: {}", branch_ref));
    }

    let head = ref_store.read_head().unwrap();
    assert_eq!(head, "ref: refs/heads/test_branch");
}

#[test]
fn test_checkout_nonexistent_branch() {
    let ref_store = init_store();
    let exists = ref_store.read_ref("refs/heads/nonexistent").is_some();
    assert!(!exists);
}

#[test]
fn test_delete_branch_command() {
    let mut ref_store = init_store();
    ref_store.create_branch("temp").unwrap();

    let branches = ref_store.list_branches();
    let branch_names: Vec<String> = branches.iter().map(|(name, _)| name.clone()).collect();
    assert!(branch_names.contains(&"temp".to_string()));

    ref_store.delete_branch("temp").unwrap();

    let branches_after = ref_store.list_branches();
    let branch_names_after: Vec<String> =
        branches_after.iter().map(|(name, _)| name.clone()).collect();
    assert!(!branch_names_after.contains(&"temp".to_string()));
}

#[test]
fn test_delete_current_branch_command() {
    let mut ref_store = init_store();
    ref_store.create_branch("current").unwrap();
    ref_store.update_head("ref: refs/heads/current");

    let result = ref_store.delete_branch("current");
    assert!(result.is_err());
    match result {
        Err(e) => {
            assert!(matches!(e, VcsError::InvalidArgument(_)));
            assert!(e.message().contains("Cannot delete the current branch"));
        }
        _ => panic!("Expected error"),
    }
}

#[test]
fn test_merge_branch_command() {
    let mut ref_store = init_store();
    let mut store = ObjectStore::new();
    ref_store.create_branch("feature").unwrap();
    ref_store.update_ref("refs/heads/main", "main_commit");
    ref_store.update_ref("refs/heads/feature", "feature_commit");

    ref_store.merge_branch(&mut store, "feature").unwrap();

    let main_commit = ref_store.read_ref("refs/heads/main");
    assert!(main_commit.is_some());
    assert_ne!(main_commit.unwrap(), "main_commit");
}

#[test]
fn test_merge_nonexistent_branch_command() {
    let mut ref_store = init_store();
    let mut store = ObjectStore::new();
    let result = ref_store.merge_branch(&mut store, "nonexistent");
    assert!(result.is_err());
    match result {
        Err(e) => {
            assert!(matches!(e, VcsError::NotFound(_)));
            assert!(e.message().contains("does not exist"));
        }
        _ => panic!("Expected error"),
    }
}
