//! Workspace snapshots: conflict detection and stash commits.

use cobra::object::Object;
use cobra::refs::RefStore;
use cobra::store::ObjectStore;
use cobra::workspace::{StashState, WorkspaceState};

#[test]
fn test_check_conflicts_reports_changed_path() {
    let mut captured = WorkspaceState::new();
    captured.add_file("a.txt".to_string(), "1".repeat(40), 0o100644);
    captured.add_file("b.txt".to_string(), "2".repeat(40), 0o100644);

    let mut live = WorkspaceState::new();
    live.add_file("a.txt".to_string(), "9".repeat(40), 0o100644);
    live.add_file("b.txt".to_string(), "2".repeat(40), 0o100644);

    let conflicts = captured.check_conflicts(&live);
    assert_eq!(conflicts, vec!["a.txt".to_string()]);
}

#[test]
fn test_check_conflicts_ignores_missing_paths() {
    let mut captured = WorkspaceState::new();
    captured.add_file("only-here.txt".to_string(), "1".repeat(40), 0o100644);
    let live = WorkspaceState::new();
    assert_eq!(captured.check_conflicts(&live).len(), 0);
}

#[test]
fn test_stash_state_commit() {
    let mut refs = RefStore::new();
    refs.create_initial_refs();
    refs.update_ref("refs/heads/main", "main_commit");
    let mut store = ObjectStore::new();

    let mut ws = WorkspaceState::new();
    ws.add_file("f.txt".to_string(), "3".repeat(40), 0o100644);

    let stash = StashState::create(ws, Vec::new(), &refs, "WIP work").unwrap();
    assert_eq!(stash.parent, "main_commit");

    let hash = stash.create_commit(&mut store).unwrap();
    match store.get(&hash).unwrap() {
        Object::Commit { parents, message, .. } => {
            assert_eq!(parents, &vec!["main_commit".to_string()]);
            assert_eq!(message, "WIP work");
        }
        _ => panic!("Expected commit object"),
    }
}

#[test]
fn test_workspace_tree_is_flat_and_sorted() {
    let mut store = ObjectStore::new();
    let mut ws = WorkspaceState::new();
    ws.add_file("dir/zed.txt".to_string(), "4".repeat(40), 0o100644);
    ws.add_file("alpha.txt".to_string(), "5".repeat(40), 0o100644);

    let tree_hash = ws.create_tree(&mut store).unwrap();
    match store.get(&tree_hash).unwrap() {
        Object::Tree(entries) => {
            assert_eq!(entries.len(), 2);
            assert_eq!(entries[0].name, "alpha.txt");
            assert_eq!(entries[1].name, "zed.txt");
        }
        _ => panic!("Expected tree object"),
    }
}

#[test]
fn test_workspace_tree_content_exact() {
    let mut store = ObjectStore::new();
    let mut ws = WorkspaceState::new();
    ws.add_file("b.txt".to_string(), "7".repeat(40), 0o100644);
    ws.add_file("a.txt".to_string(), "8".repeat(40), 0o100755);

    let tree_hash = ws.create_tree(&mut store).unwrap();
    match store.get(&tree_hash).unwrap() {
        Object::Tree(entries) => {
            assert_eq!(entries.len(), 2);
            assert_eq!(entries[0].name, "a.txt");
            assert_eq!(entries[0].mode, 0o100755);
            assert_eq!(entries[0].hash, "8".repeat(40));
            assert_eq!(entries[1].name, "b.txt");
            assert_eq!(entries[1].mode, 0o100644);
            assert_eq!(entries[1].hash, "7".repeat(40));
        }
        _ => panic!("Expected tree object"),
    }
}

#[test]
fn test_workspace_tree_bad_path_refused() {
    let mut store = ObjectStore::new();
    let mut ws = WorkspaceState::new();
    ws.add_file("dir/".to_string(), "9".repeat(40), 0o100644);
    let r = ws.create_tree(&mut store);
    assert!(matches!(r, Err(cobra::VcsError::InvalidArgument(_))));
}

