//! Workspace snapshots: the captured working-directory state as data (path to
//! content hash, path to mode bits), conflict detection against another
//! capture, and the stash state built from a snapshot.

use vstd::prelude::*;
use crate::error::VcsError;
use crate::index::IndexEntry;
use crate::object::{object_hash, strings_view, tree_hash_of, EntryView, Object, TreeEntry};
use crate::refs::{
    spec_resolve_head, stash_commit_shape, store_put_outcome, HeadResolution, RefStore,
};
use crate::signature::Signature;
use crate::store::ObjectStore;
use crate::strutil::{last_index_of, lemma_last_index_of_props, rfind_char, str_eq, substring};
use crate::tree::{sorted_insert, sorted_names, spec_sorted_insert};
use crate::object::entries_view;
use vstd::string::StrSliceExecFns;
use vstd::string::StringExecFns;

verus! {

/// The content hash recorded for a path, first record winning.
pub open spec fn lookup_hash(files: Seq<(String, String)>, p: Seq<char>) -> Option<Seq<char>>
    decreases files.len(),
{
    if files.len() == 0 {
        None
    } else if files.first().0@ == p {
        Some(files.first().1@)
    } else {
        lookup_hash(files.drop_first(), p)
    }
}

/// A path drawn from the records always has a recorded hash.
proof fn lemma_lookup_present(files: Seq<(String, String)>, i: int)
    requires
        0 <= i < files.len(),
    ensures
        lookup_hash(files, files[i].0@) is Some,
    decreases files.len(),
{
    if files.first().0@ != files[i].0@ {
        assert(i > 0);
        assert(files.drop_first()[i - 1] == files[i]);
        lemma_lookup_present(files.drop_first(), i - 1);
    }
}

/// The mode bits recorded for a path, first record winning.
pub open spec fn lookup_mode(modes: Seq<(String, u32)>, p: Seq<char>) -> Option<u32>
    decreases modes.len(),
{
    if modes.len() == 0 {
        None
    } else if modes.first().0@ == p {
        Some(modes.first().1)
    } else {
        lookup_mode(modes.drop_first(), p)
    }
}

/// The name of a file within its directory: what follows the last separator.
pub open spec fn base_name(p: Seq<char>) -> Seq<char> {
    match last_index_of(p, '/') {
        Some(k) => p.skip(k + 1),
        None => p,
    }
}

/// The tree entries a capture builds: each recorded file that has a recorded
/// mode, inserted in record order at its sorted position under its base
/// name.
pub open spec fn ws_entries(
    files: Seq<(String, String)>,
    modes: Seq<(String, u32)>,
) -> Seq<EntryView>
    decreases files.len(),
{
    if files.len() == 0 {
        Seq::<EntryView>::empty()
    } else {
        let prev = ws_entries(files.drop_last(), modes);
        let f = files.last();
        if base_name(f.0@).len() == 0 {
            prev
        } else {
            match lookup_mode(modes, f.0@) {
                Some(m) => spec_sorted_insert(prev, (m, base_name(f.0@), f.1@)),
                None => prev,
            }
        }
    }
}

/// A captured working directory: each regular file's repository-relative
/// path with its blob hash, and its mode bits.
pub struct WorkspaceState {
    /// Paths mapped to the hashes of their content blobs.
    pub files: Vec<(String, String)>,
    /// Paths mapped to their mode bits.
    pub modes: Vec<(String, u32)>,
}

impl WorkspaceState {
    /// An empty capture.
    pub fn new() -> (r: WorkspaceState)
        ensures
            r.files@ == Seq::<(String, String)>::empty(),
            r.modes@ == Seq::<(String, u32)>::empty(),
    {
        WorkspaceState { files: Vec::new(), modes: Vec::new() }
    }

    /// Records one captured file.
    pub fn add_file(&mut self, path: String, hash: String, mode: u32)
        ensures
            final(self).files@ == old(self).files@.push((path, hash)),
            final(self).modes@ == old(self).modes@.push((path, mode)),
    {
        let p2 = path.clone();
        self.files.push((path, hash));
        self.modes.push((p2, mode));
    }

    /// The recorded hash of a path, if the capture holds it.
    pub fn hash_of(&self, path: &str) -> (r: Option<String>)
        ensures
            match r {
                Some(h) => lookup_hash(self.files@, path@) == Some(h@),
                None => lookup_hash(self.files@, path@) is None,
            },
    {
        let n = self.files.len();
        proof {
            assert(self.files@.skip(0) =~= self.files@);
        }
        for i in 0..n
            invariant
                n == self.files@.len(),
                lookup_hash(self.files@, path@) == lookup_hash(
                    self.files@.skip(i as int),
                    path@,
                ),
        {
            let ghost rem = self.files@.skip(i as int);
            proof {
                assert(rem.first() == self.files@[i as int]);
                assert(rem.drop_first() =~= self.files@.skip(i + 1));
            }
            if str_eq(self.files[i].0.as_str(), path) {
                return Some(self.files[i].1.clone());
            }
        }
        None
    }

    /// The paths of this capture whose content hash differs in the other
    /// capture: exactly those recorded in both with different hashes.
    pub fn check_conflicts(&self, current: &WorkspaceState) -> (r: Vec<String>)
        ensures
            forall|k: int|
                0 <= k < r@.len() ==> lookup_hash(self.files@, (#[trigger] r@[k])@) is Some
                    && lookup_hash(current.files@, r@[k]@) is Some && lookup_hash(
                    self.files@,
                    r@[k]@,
                ) != lookup_hash(current.files@, r@[k]@),
            forall|i: int|
                0 <= i < self.files@.len() && lookup_hash(
                    current.files@,
                    (#[trigger] self.files@[i]).0@,
                ) is Some && lookup_hash(self.files@, self.files@[i].0@) != lookup_hash(
                    current.files@,
                    self.files@[i].0@,
                ) ==> exists|k: int| 0 <= k < r@.len() && (#[trigger] r@[k])@ == self.files@[i].0@,
    {
        let mut out: Vec<String> = Vec::new();
        let n = self.files.len();
        for i in 0..n
            invariant
                n == self.files@.len(),
                forall|k: int|
                    0 <= k < out@.len() ==> lookup_hash(self.files@, (#[trigger] out@[k])@)
                        is Some && lookup_hash(current.files@, out@[k]@) is Some && lookup_hash(
                        self.files@,
                        out@[k]@,
                    ) != lookup_hash(current.files@, out@[k]@),
                forall|j: int|
                    0 <= j < i && lookup_hash(
                        current.files@,
                        (#[trigger] self.files@[j]).0@,
                    ) is Some && lookup_hash(self.files@, self.files@[j].0@) != lookup_hash(
                        current.files@,
                        self.files@[j].0@,
                    ) ==> exists|k: int|
                        0 <= k < out@.len() && (#[trigger] out@[k])@ == self.files@[j].0@,
        {
            let path = &self.files[i].0;
            let mine = self.hash_of(path.as_str());
            let theirs = current.hash_of(path.as_str());
            let ghost prev = out@;
            match (mine, theirs) {
                (Some(h1), Some(h2)) => {
                    if !str_eq(h1.as_str(), h2.as_str()) {
                        out.push(path.clone());
                        proof {
                            assert(out@.last()@ == self.files@[i as int].0@);
                            assert forall|j: int|
                                0 <= j < i + 1 && lookup_hash(
                                    current.files@,
                                    (#[trigger] self.files@[j]).0@,
                                ) is Some && lookup_hash(self.files@, self.files@[j].0@)
                                != lookup_hash(
                                current.files@,
                                self.files@[j].0@,
                            ) implies exists|k: int|
                                0 <= k < out@.len() && (#[trigger] out@[k])@
                                    == self.files@[j].0@ by {
                                if j < i {
                                    let k = choose|k: int|
                                        0 <= k < prev.len() && (#[trigger] prev[k])@
                                            == self.files@[j].0@;
                                    assert(out@[k]@ == self.files@[j].0@);
                                } else {
                                    assert(out@[out@.len() - 1]@ == self.files@[j].0@);
                                }
                            }
                        }
                    }
                },
                _ => {
                    proof {
                        lemma_lookup_present(self.files@, i as int);
                    }
                },
            }
        }
        out
    }

    /// Builds one flat tree object from the capture: exactly the recorded
    /// files that carry a mode, each under the name after its last separator,
    /// in lexicographic name order, written through the store. A path whose
    /// final segment is empty is refused.
    pub fn create_tree(&self, store: &mut ObjectStore) -> (r: Result<String, VcsError>)
        requires
            old(store).wf(),
        ensures
            final(store).wf(),
            match r {
                Ok(h) => (forall|i: int|
                    0 <= i < self.files@.len() ==> base_name(
                        (#[trigger] self.files@[i]).0@,
                    ).len() > 0) && h@ == tree_hash_of(ws_entries(self.files@, self.modes@))
                    && final(store).as_map().contains_key(h@) && exists|t: Object|
                    #[trigger] store_put_outcome(old(store).as_map(), final(store).as_map(), t)
                        && (t matches Object::Tree(es) && entries_view(es@) == ws_entries(
                        self.files@,
                        self.modes@,
                    )),
                Err(e) => e is InvalidArgument && (exists|i: int|
                    0 <= i < self.files@.len() && base_name(
                        (#[trigger] self.files@[i]).0@,
                    ).len() == 0) && *final(store) == *old(store),
            },
    {
        let mut entries: Vec<TreeEntry> = Vec::new();
        let n = self.files.len();
        proof {
            assert(entries_view(entries@) =~= ws_entries(self.files@.take(0), self.modes@));
        }
        for i in 0..n
            invariant
                n == self.files@.len(),
                *store == *old(store),
                store.wf(),
                sorted_names(entries_view(entries@)),
                entries_view(entries@) == ws_entries(self.files@.take(i as int), self.modes@),
                forall|j: int|
                    0 <= j < i ==> base_name((#[trigger] self.files@[j]).0@).len() > 0,
        {
            let path = &self.files[i].0;
            let plen = path.as_str().unicode_len();
            proof {
                lemma_last_index_of_props(path@, '/');
            }
            let from: usize = match rfind_char(path.as_str(), '/') {
                Some(k) => {
                    proof {
                        assert(last_index_of(path@, '/') == Some(k as int));
                    }
                    k + 1
                },
                None => {
                    proof {
                        assert(last_index_of(path@, '/') is None);
                    }
                    0
                },
            };
            proof {
                assert(base_name(path@) =~= path@.skip(from as int));
            }
            if from >= plen {
                proof {
                    assert(base_name(self.files@[i as int].0@).len() == 0);
                }
                return Err(VcsError::InvalidArgument("Invalid file path".to_owned()));
            }
            let name = substring(path.as_str(), from, plen);
            proof {
                assert(name@ =~= path@.skip(from as int));
                assert(name@ == base_name(self.files@[i as int].0@));
            }
            match self.mode_of(path.as_str()) {
                Some(mode) => {
                    sorted_insert(
                        &mut entries,
                        TreeEntry { mode, name, hash: self.files[i].1.clone() },
                    );
                },
                None => {},
            }
            proof {
                let next = self.files@.take(i + 1);
                assert(next.drop_last() =~= self.files@.take(i as int));
                assert(next.last() == self.files@[i as int]);
                assert(entries_view(entries@) == ws_entries(next, self.modes@));
            }
        }
        proof {
            assert(self.files@.take(n as int) =~= self.files@);
        }
        let obj = Object::Tree(entries);
        let ghost gobj = obj;
        let h = store.put(obj);
        proof {
            assert(object_hash(gobj) == tree_hash_of(ws_entries(self.files@, self.modes@)));
            assert(store_put_outcome(old(store).as_map(), store.as_map(), gobj));
        }
        Ok(h)
    }

    /// The recorded mode of a path, if the capture holds it.
    pub fn mode_of(&self, path: &str) -> (r: Option<u32>)
        ensures
            r == lookup_mode(self.modes@, path@),
    {
        let n = self.modes.len();
        proof {
            assert(self.modes@.skip(0) =~= self.modes@);
        }
        for i in 0..n
            invariant
                n == self.modes@.len(),
                lookup_mode(self.modes@, path@) == lookup_mode(
                    self.modes@.skip(i as int),
                    path@,
                ),
        {
            let ghost rem = self.modes@.skip(i as int);
            proof {
                assert(rem.first() == self.modes@[i as int]);
                assert(rem.drop_first() =~= self.modes@.skip(i + 1));
            }
            if str_eq(self.modes[i].0.as_str(), path) {
                return Some(self.modes[i].1);
            }
        }
        None
    }
}

/// A complete stash: the captured workspace, the index entries at capture
/// time, the parent commit, and the message.
pub struct StashState {
    /// The captured working directory.
    pub workspace: WorkspaceState,
    /// The staged entries at capture time.
    pub index: Vec<IndexEntry>,
    /// The commit the stash is parented on.
    pub parent: String,
    /// The stash message.
    pub message: String,
}

impl StashState {
    /// Assembles a stash from a capture and the current ref state: the
    /// parent is the current effective commit; a missing or dangling HEAD is
    /// refused.
    pub fn create(
        workspace: WorkspaceState,
        index: Vec<IndexEntry>,
        refs: &RefStore,
        message: &str,
    ) -> (r: Result<StashState, VcsError>)
        requires
            refs.wf(),
        ensures
            match r {
                Ok(st) => spec_resolve_head(refs.refs_map()) matches HeadResolution::Commit(c)
                    && st.parent@ == c && st.message@ == message@ && st.workspace == workspace
                    && st.index == index,
                Err(e) => e is NotFound && !(spec_resolve_head(refs.refs_map()) is Commit),
            },
    {
        let parent = match refs.resolve_head() {
            crate::refs::ResolvedHead::NoHead => {
                return Err(VcsError::NotFound("HEAD reference not found".to_owned()));
            },
            crate::refs::ResolvedHead::Missing(_) => {
                return Err(
                    VcsError::NotFound("Current branch reference not found".to_owned()),
                );
            },
            crate::refs::ResolvedHead::At(c) => c,
        };
        Ok(StashState { workspace, index, parent, message: message.to_owned() })
    }

    /// Writes the stash as a commit: the capture's tree (exactly as
    /// `create_tree` builds it), parented on the recorded commit, carrying
    /// the message; only those two objects can enter the store, and the
    /// commit's hash is returned.
    pub fn create_commit(&self, store: &mut ObjectStore) -> (r: Result<String, VcsError>)
        requires
            old(store).wf(),
        ensures
            final(store).wf(),
            match r {
                Ok(h) => (forall|i: int|
                    0 <= i < self.workspace.files@.len() ==> base_name(
                        (#[trigger] self.workspace.files@[i]).0@,
                    ).len() > 0) && exists|c: Object|
                    #[trigger] stash_commit_shape(
                        c,
                        tree_hash_of(ws_entries(self.workspace.files@, self.workspace.modes@)),
                        self.parent@,
                        self.message@,
                    ) && h@ == object_hash(c) && final(store).as_map().contains_key(
                        object_hash(c),
                    ) && final(store).as_map().contains_key(
                        tree_hash_of(ws_entries(self.workspace.files@, self.workspace.modes@)),
                    ) && (forall|k: Seq<char>|
                        #[trigger] final(store).as_map().contains_key(k) ==> old(
                            store,
                        ).as_map().contains_key(k) || k == tree_hash_of(
                            ws_entries(self.workspace.files@, self.workspace.modes@),
                        ) || k == object_hash(c)),
                Err(e) => e is InvalidArgument && (exists|i: int|
                    0 <= i < self.workspace.files@.len() && base_name(
                        (#[trigger] self.workspace.files@[i]).0@,
                    ).len() == 0) && *final(store) == *old(store),
            },
    {
        let ghost m0 = store.as_map();
        let tree_hash = match self.workspace.create_tree(store) {
            Ok(t) => t,
            Err(e) => {
                return Err(e);
            },
        };
        let ghost m1 = store.as_map();
        let ghost th = tree_hash@;
        let author = Signature::new("Your Name".to_owned(), "you@example.com".to_owned());
        let committer = author.duplicate();
        let mut parents: Vec<String> = Vec::new();
        parents.push(self.parent.clone());
        let commit = Object::new_commit(
            tree_hash,
            parents,
            author,
            committer,
            self.message.clone(),
        );
        let ghost gc = commit;
        proof {
            assert(strings_view(gc->Commit_parents@) =~= seq![self.parent@]);
            assert(stash_commit_shape(gc, th, self.parent@, self.message@));
        }
        let h = store.put(commit);
        proof {
            let tws = tree_hash_of(ws_entries(self.workspace.files@, self.workspace.modes@));
            let t = choose|t: Object|
                store_put_outcome(m0, m1, t) && (t matches Object::Tree(es) && entries_view(
                    es@,
                ) == ws_entries(self.workspace.files@, self.workspace.modes@));
            assert(object_hash(t) == tws);
            assert forall|k: Seq<char>| #[trigger]
                store.as_map().contains_key(k) implies m0.contains_key(k) || k == tws || k
                == object_hash(gc) by {
                if store.as_map() != m1 {
                    assert(store.as_map() == m1.insert(object_hash(gc), gc));
                }
                if k != object_hash(gc) || m1.contains_key(k) {
                    if m1.contains_key(k) {
                        if m1 != m0 {
                            assert(m1 == m0.insert(object_hash(t), t));
                        }
                    }
                }
            }
            assert(store.as_map().contains_key(tws));
        }
        Ok(h)
    }
}

} // verus!
