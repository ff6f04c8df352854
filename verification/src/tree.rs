//! The tree builder: turns the flat staged-file list into a hierarchy of
//! tree objects, written bottom-up through the object store, with each
//! directory's entries kept in lexicographic name order.

use vstd::prelude::*;
use crate::error::VcsError;
use crate::index::{Index, IndexEntry};
use crate::object::{entries_view, object_hash, strings_view, tree_hash_of, EntryView, Object, TreeEntry};
use crate::store::ObjectStore;
use crate::strutil::{
    find_char, first_index_of, lemma_first_index_of_props, starts_with_str, spec_starts_with,
    str_concat, str_eq, substring,
};
use vstd::string::StrSliceExecFns;
use vstd::string::StringExecFns;

verus! {

/// Lexicographic order on character strings, by code point.
pub open spec fn str_le(a: Seq<char>, b: Seq<char>) -> bool
    decreases a.len(),
{
    if a.len() == 0 {
        true
    } else if b.len() == 0 {
        false
    } else if (a[0] as u32) < (b[0] as u32) {
        true
    } else if (a[0] as u32) > (b[0] as u32) {
        false
    } else {
        str_le(a.drop_first(), b.drop_first())
    }
}

/// Any two strings are ordered one way or the other.
pub proof fn lemma_str_le_total(a: Seq<char>, b: Seq<char>)
    ensures
        str_le(a, b) || str_le(b, a),
    decreases a.len(),
{
    if a.len() > 0 && b.len() > 0 && (a[0] as u32) == (b[0] as u32) {
        lemma_str_le_total(a.drop_first(), b.drop_first());
    }
}

/// The order is transitive.
pub proof fn lemma_str_le_trans(a: Seq<char>, b: Seq<char>, c: Seq<char>)
    requires
        str_le(a, b),
        str_le(b, c),
    ensures
        str_le(a, c),
    decreases a.len(),
{
    if a.len() > 0 && b.len() > 0 && c.len() > 0 && (a[0] as u32) == (b[0] as u32) && (
    b[0] as u32) == (c[0] as u32) {
        lemma_str_le_trans(a.drop_first(), b.drop_first(), c.drop_first());
    }
}

/// Whether two strings compare equal or the first comes first.
pub fn str_le_exec(a: &str, b: &str) -> (r: bool)
    ensures
        r == str_le(a@, b@),
{
    let alen = a.unicode_len();
    let blen = b.unicode_len();
    let mut i: usize = 0;
    assert(a@.skip(0) =~= a@);
    assert(b@.skip(0) =~= b@);
    loop
        invariant_except_break
            i <= alen && i <= blen,
            alen == a@.len() && blen == b@.len(),
            str_le(a@, b@) == str_le(a@.skip(i as int), b@.skip(i as int)),
        ensures
            i <= alen && i <= blen,
            str_le(a@, b@) == str_le(a@.skip(i as int), b@.skip(i as int)),
            i == alen || i == blen || a@[i as int] != b@[i as int],
        decreases alen - i,
    {
        if i == alen || i == blen {
            break;
        }
        let ca = a.get_char(i);
        let cb = b.get_char(i);
        if ca != cb {
            break;
        }
        proof {
            let ra = a@.skip(i as int);
            let rb = b@.skip(i as int);
            assert(ra[0] == a@[i as int] && rb[0] == b@[i as int]);
            assert(ra.drop_first() =~= a@.skip(i + 1));
            assert(rb.drop_first() =~= b@.skip(i + 1));
        }
        i = i + 1;
    }
    let ghost ra = a@.skip(i as int);
    let ghost rb = b@.skip(i as int);
    if i == alen {
        proof {
            assert(ra.len() == 0);
        }
        true
    } else if i == blen {
        proof {
            assert(rb.len() == 0 && ra.len() > 0);
        }
        false
    } else {
        let ca = a.get_char(i);
        let cb = b.get_char(i);
        proof {
            assert(ra[0] == a@[i as int] && rb[0] == b@[i as int]);
        }
        (ca as u32) < (cb as u32)
    }
}

/// Whether tree entries are in lexicographic name order.
pub open spec fn sorted_names(es: Seq<EntryView>) -> bool {
    forall|i: int, j: int| 0 <= i < j < es.len() ==> str_le((#[trigger] es[i]).1, (#[trigger] es[j]).1)
}

/// Whether an entry with these fields is present.
pub open spec fn has_entry(es: Seq<EntryView>, name: Seq<char>, mode: u32, hash: Seq<char>) -> bool {
    exists|i: int| 0 <= i < es.len() && (#[trigger] es[i]) == (mode, name, hash)
}

/// Whether a subtree entry with this name is present.
pub open spec fn has_dir_entry(es: Seq<EntryView>, name: Seq<char>) -> bool {
    exists|i: int| 0 <= i < es.len() && (#[trigger] es[i]).1 == name && es[i].0 == 0o040000u32
}

/// The entries with `e` inserted before the first entry whose name does not
/// precede it.
pub open spec fn spec_sorted_insert(es: Seq<EntryView>, e: EntryView) -> Seq<EntryView>
    decreases es.len(),
{
    if es.len() == 0 {
        seq![e]
    } else if str_le(e.1, es.first().1) {
        seq![e] + es
    } else {
        seq![es.first()] + spec_sorted_insert(es.drop_first(), e)
    }
}

/// Where the insertion lands: at the first position whose entry's name does
/// not precede the new name.
proof fn lemma_spec_sorted_insert_at(es: Seq<EntryView>, e: EntryView, k: int)
    requires
        0 <= k <= es.len(),
        forall|j: int| 0 <= j < k ==> !str_le(e.1, (#[trigger] es[j]).1),
        k < es.len() ==> str_le(e.1, es[k].1),
    ensures
        spec_sorted_insert(es, e) == es.take(k) + seq![e] + es.skip(k),
    decreases es.len(),
{
    if es.len() == 0 {
        assert(spec_sorted_insert(es, e) =~= es.take(k) + seq![e] + es.skip(k));
    } else if k == 0 {
        assert(spec_sorted_insert(es, e) =~= es.take(0) + seq![e] + es.skip(0));
    } else {
        assert(!str_le(e.1, es[0].1));
        assert forall|j: int|
            0 <= j < k - 1 implies !str_le(e.1, (#[trigger] es.drop_first()[j]).1) by {
            assert(es.drop_first()[j] == es[j + 1]);
        }
        if k - 1 < es.drop_first().len() {
            assert(es.drop_first()[k - 1] == es[k]);
        }
        lemma_spec_sorted_insert_at(es.drop_first(), e, k - 1);
        assert(spec_sorted_insert(es, e) =~= es.take(k) + seq![e] + es.skip(k));
    }
}

/// Inserts an entry at its sorted position: the result is exactly the
/// spec-level insertion; order is kept, the entry is present, and every entry
/// already present stays.
pub fn sorted_insert(v: &mut Vec<TreeEntry>, e: TreeEntry)
    requires
        sorted_names(entries_view(old(v)@)),
    ensures
        entries_view(final(v)@) == spec_sorted_insert(
            entries_view(old(v)@),
            (e.mode, e.name@, e.hash@),
        ),
        sorted_names(entries_view(final(v)@)),
        final(v)@.len() == old(v)@.len() + 1,
        has_entry(entries_view(final(v)@), e.name@, e.mode, e.hash@),
        forall|n: Seq<char>, m: u32, h: Seq<char>|
            #[trigger] has_entry(entries_view(old(v)@), n, m, h) ==> has_entry(
                entries_view(final(v)@),
                n,
                m,
                h,
            ),
        forall|n: Seq<char>|
            #[trigger] has_dir_entry(entries_view(old(v)@), n) ==> has_dir_entry(
                entries_view(final(v)@),
                n,
            ),
    {
    let len = v.len();
    let mut idx: usize = 0;
    loop
        invariant_except_break
            idx <= len,
            len == v@.len(),
            v@ == old(v)@,
            forall|k: int| 0 <= k < idx ==> !str_le(e.name@, entries_view(v@)[k].1),
        ensures
            idx <= len,
            len == v@.len(),
            v@ == old(v)@,
            forall|k: int| 0 <= k < idx ==> !str_le(e.name@, entries_view(v@)[k].1),
            idx < len ==> str_le(e.name@, entries_view(v@)[idx as int].1),
        decreases len - idx,
    {
        if idx == len {
            break;
        }
        if str_le_exec(e.name.as_str(), v[idx].name.as_str()) {
            proof {
                assert(entries_view(v@)[idx as int].1 == v@[idx as int].name@);
            }
            break;
        }
        proof {
            assert(entries_view(v@)[idx as int].1 == v@[idx as int].name@);
        }
        idx = idx + 1;
    }
    let ghost before = v@;
    let ghost ipos = idx as int;
    v.insert(idx, e);
    proof {
        let newv = entries_view(v@);
        let oldv = entries_view(before);
        assert(v@ =~= before.insert(ipos, e));
        assert forall|j: int| 0 <= j < ipos implies !str_le(
            (e.mode, e.name@, e.hash@).1,
            (#[trigger] oldv[j]).1,
        ) by {
            assert(oldv[j].1 == before[j].name@);
        }
        lemma_spec_sorted_insert_at(oldv, (e.mode, e.name@, e.hash@), ipos);
        assert forall|k: int| 0 <= k < newv.len() implies newv[k] == (if k < ipos {
            oldv[k]
        } else if k == ipos {
            (e.mode, e.name@, e.hash@)
        } else {
            oldv[k - 1]
        }) by {
            if k < ipos {
                assert(v@[k] == before[k]);
            } else if k > ipos {
                assert(v@[k] == before[k - 1]);
            } else {
                assert(v@[k] == e);
            }
        }
        assert forall|i: int, j: int| 0 <= i < j < newv.len() implies str_le(
            (#[trigger] newv[i]).1,
            (#[trigger] newv[j]).1,
        ) by {
            if i < ipos && j == ipos {
                assert(!str_le(e.name@, oldv[i].1));
                lemma_str_le_total(e.name@, oldv[i].1);
            } else if i == ipos && j > ipos {
                assert(str_le(e.name@, oldv[ipos].1));
                if j - 1 > ipos {
                    lemma_str_le_trans(e.name@, oldv[ipos].1, oldv[j - 1].1);
                }
            } else if i < ipos && j > ipos {
                assert(str_le(oldv[i].1, oldv[j - 1].1));
            }
        }
        assert(has_entry(newv, e.name@, e.mode, e.hash@)) by {
            assert(newv[ipos] == (e.mode, e.name@, e.hash@));
        }
        assert forall|n: Seq<char>, m: u32, h: Seq<char>|
            #[trigger] has_entry(oldv, n, m, h) implies has_entry(newv, n, m, h) by {
            let k = choose|k: int| 0 <= k < oldv.len() && oldv[k] == (m, n, h);
            if k < ipos {
                assert(newv[k] == (m, n, h));
            } else {
                assert(newv[k + 1] == (m, n, h));
            }
        }
        assert forall|n: Seq<char>|
            #[trigger] has_dir_entry(oldv, n) implies has_dir_entry(newv, n) by {
            let k = choose|k: int| 0 <= k < oldv.len() && oldv[k].1 == n && oldv[k].0
                == 0o040000u32;
            if k < ipos {
                assert(newv[k].1 == n && newv[k].0 == 0o040000u32);
            } else {
                assert(newv[k + 1].1 == n && newv[k + 1].0 == 0o040000u32);
            }
        }
        assert(newv =~= oldv.take(ipos) + seq![(e.mode, e.name@, e.hash@)] + oldv.skip(ipos));
    }
}

/// A directory listing under construction.
pub struct Tree {
    entries: Vec<TreeEntry>,
}

impl Tree {
    /// The entries so far.
    pub closed spec fn view(&self) -> Seq<TreeEntry> {
        self.entries@
    }

    /// An empty tree.
    pub fn new() -> (r: Tree)
        ensures
            r@ == Seq::<TreeEntry>::empty(),
    {
        Tree { entries: Vec::new() }
    }

    /// Appends an entry.
    pub fn add_entry(&mut self, name: String, mode: u32, hash: String)
        ensures
            final(self)@ == old(self)@.push(TreeEntry { mode, name, hash }),
    {
        self.entries.push(TreeEntry { mode, name, hash });
    }

    /// The tree as an object, entries copied in order.
    pub fn to_object(&self) -> (r: Object)
        ensures
            r matches Object::Tree(es) && es@ == self@,
    {
        let mut es: Vec<TreeEntry> = Vec::new();
        let n = self.entries.len();
        for i in 0..n
            invariant
                n == self.entries@.len(),
                es@ =~= self.entries@.take(i as int),
        {
            es.push(self.entries[i].duplicate());
            assert(es@ =~= self.entries@.take(i + 1));
        }
        assert(es@ =~= self.entries@);
        Object::Tree(es)
    }
}

/// Whether a path is well formed for the tree builder: nonempty, with no
/// empty segment (it neither starts nor ends with a separator, and has no
/// doubled separator).
pub open spec fn wf_path(p: Seq<char>) -> bool {
    p.len() > 0 && p[0] != '/' && p[p.len() - 1] != '/' && forall|i: int|
        0 < i < p.len() ==> !((#[trigger] p[i]) == '/' && p[i - 1] == '/')
}

/// Whether `rest` addresses a file directly in the directory (no further
/// separator).
pub open spec fn is_leaf_rest(rest: Seq<char>) -> bool {
    rest.len() > 0 && !rest.contains('/')
}

/// The first path segment of `rest`: everything before the first separator,
/// or all of it.
pub open spec fn top_seg(rest: Seq<char>) -> Seq<char> {
    match first_index_of(rest, '/') {
        Some(k) => rest.take(k),
        None => rest,
    }
}

/// Whether every indexed path under `prefix` with a deeper component has its
/// first segment among `segs`, over the first `bound` entries.
pub open spec fn segs_cover(
    index: Seq<IndexEntry>,
    segs: Seq<String>,
    prefix: Seq<char>,
    bound: int,
) -> bool {
    forall|j: int|
        0 <= j < bound && spec_starts_with((#[trigger] index[j]).path@, prefix)
            && index[j].path@.skip(prefix.len() as int).contains('/') ==> exists|t: int|
            0 <= t < segs.len() && (#[trigger] segs[t])@ == top_seg(
                index[j].path@.skip(prefix.len() as int),
            )
}

/// The file entries of the directory at `prefix`: every indexed path
/// directly inside it, inserted in index order at its sorted position.
pub open spec fn dir_files(index: Seq<IndexEntry>, prefix: Seq<char>) -> Seq<EntryView>
    decreases index.len(),
{
    if index.len() == 0 {
        Seq::<EntryView>::empty()
    } else {
        let prev = dir_files(index.drop_last(), prefix);
        let e = index.last();
        let rest = e.path@.skip(prefix.len() as int);
        if spec_starts_with(e.path@, prefix) && is_leaf_rest(rest) {
            spec_sorted_insert(prev, (e.mode, rest, e.hash@))
        } else {
            prev
        }
    }
}

/// The immediate child directories of the directory at `prefix`: the first
/// path segment of every deeper indexed path, in order of first appearance.
pub open spec fn dir_segs(index: Seq<IndexEntry>, prefix: Seq<char>) -> Seq<Seq<char>>
    decreases index.len(),
{
    if index.len() == 0 {
        Seq::<Seq<char>>::empty()
    } else {
        let prev = dir_segs(index.drop_last(), prefix);
        let e = index.last();
        let rest = e.path@.skip(prefix.len() as int);
        if spec_starts_with(e.path@, prefix) && rest.contains('/') && !prev.contains(
            top_seg(rest),
        ) {
            prev.push(top_seg(rest))
        } else {
            prev
        }
    }
}

/// The full entry list of the directory at `prefix`: its files, then one
/// subtree entry per child directory, each carrying the hash of the child's
/// own entry list, inserted at its sorted position. `fuel` bounds the
/// recursion depth; one more than the longest indexed path always suffices.
pub open spec fn dir_entries(index: Seq<IndexEntry>, prefix: Seq<char>, fuel: nat) -> Seq<
    EntryView,
>
    decreases fuel, 1nat, 0nat,
{
    insert_dir_entries(index, prefix, dir_segs(index, prefix), dir_files(index, prefix), fuel)
}

/// Folds the child-directory entries into `base`, front to back.
pub open spec fn insert_dir_entries(
    index: Seq<IndexEntry>,
    prefix: Seq<char>,
    segs: Seq<Seq<char>>,
    base: Seq<EntryView>,
    fuel: nat,
) -> Seq<EntryView>
    decreases fuel, 0nat, segs.len(),
{
    if segs.len() == 0 || fuel == 0 {
        base
    } else {
        insert_dir_entries(
            index,
            prefix,
            segs.drop_first(),
            spec_sorted_insert(
                base,
                (
                    0o040000u32,
                    segs.first(),
                    tree_hash_of(
                        dir_entries(index, prefix + segs.first() + seq!['/'], (fuel - 1) as nat),
                    ),
                ),
            ),
            fuel,
        )
    }
}

/// The length of the longest indexed path.
pub open spec fn max_path_len(index: Seq<IndexEntry>) -> nat
    decreases index.len(),
{
    if index.len() == 0 {
        0
    } else {
        let prev = max_path_len(index.drop_last());
        if index.last().path@.len() > prev {
            index.last().path@.len()
        } else {
            prev
        }
    }
}

/// What every object the builder adds to the store looks like: a tree, in
/// lexicographic name order, keyed by the hash of its own entries.
pub open spec fn good_added(o: Object, k: Seq<char>) -> bool {
    o matches Object::Tree(es) && tree_hash_of(entries_view(es@)) == k && sorted_names(
        entries_view(es@),
    )
}

/// Whether the store holds, under its hash, the entry list of every child
/// directory below `prefix`, recursively.
pub open spec fn subtrees_stored(
    index: Seq<IndexEntry>,
    prefix: Seq<char>,
    fuel: nat,
    m: Map<Seq<char>, Object>,
) -> bool
    decreases fuel,
{
    fuel > 0 ==> (forall|t: int|
        0 <= t < dir_segs(index, prefix).len() ==> {
            let child = prefix + (#[trigger] dir_segs(index, prefix)[t]) + seq!['/'];
            &&& m.contains_key(tree_hash_of(dir_entries(index, child, (fuel - 1) as nat)))
            &&& subtrees_stored(index, child, (fuel - 1) as nat, m)
        })
}

/// The stored-subtree property survives growing the store.
pub proof fn lemma_subtrees_stored_mono(
    index: Seq<IndexEntry>,
    prefix: Seq<char>,
    fuel: nat,
    m1: Map<Seq<char>, Object>,
    m2: Map<Seq<char>, Object>,
)
    requires
        subtrees_stored(index, prefix, fuel, m1),
        m1.submap_of(m2),
    ensures
        subtrees_stored(index, prefix, fuel, m2),
    decreases fuel,
{
    if fuel > 0 {
        assert forall|t: int| 0 <= t < dir_segs(index, prefix).len() implies {
            let child = prefix + (#[trigger] dir_segs(index, prefix)[t]) + seq!['/'];
            &&& m2.contains_key(tree_hash_of(dir_entries(index, child, (fuel - 1) as nat)))
            &&& subtrees_stored(index, child, (fuel - 1) as nat, m2)
        } by {
            let child = prefix + dir_segs(index, prefix)[t] + seq!['/'];
            let h = tree_hash_of(dir_entries(index, child, (fuel - 1) as nat));
            assert(m1.contains_key(h));
            assert(m1.dom().contains(h));
            lemma_subtrees_stored_mono(index, child, (fuel - 1) as nat, m1, m2);
        }
    }
}

/// Whether the path is well formed at the character level.
fn is_wf_path(p: &str) -> (r: bool)
    ensures
        r == wf_path(p@),
{
    let len = p.unicode_len();
    if len == 0 {
        return false;
    }
    if p.get_char(0) == '/' || p.get_char(len - 1) == '/' {
        return false;
    }
    for i in 1..len
        invariant
            len == p@.len(),
            forall|j: int| 0 < j < i ==> !((#[trigger] p@[j]) == '/' && p@[j - 1] == '/'),
    {
        if p.get_char(i) == '/' && p.get_char(i - 1) == '/' {
            return false;
        }
    }
    true
}

/// Builds the tree of one directory: its files, and one subtree entry per
/// immediate child directory, each child built and stored first.
#[verifier::rlimit(100)]
#[verifier::spinoff_prover]
fn build_dir(index: &Index, prefix: &str, store: &mut ObjectStore, fuel: usize) -> (r: Vec<
    TreeEntry,
>)
    requires
        old(store).wf(),
        prefix@.len() == 0 || prefix@[prefix@.len() - 1] == '/',
        forall|i: int| 0 <= i < index@.len() ==> wf_path((#[trigger] index@[i]).path@),
        forall|i: int|
            0 <= i < index@.len() && spec_starts_with((#[trigger] index@[i]).path@, prefix@)
                ==> index@[i].path@.len() <= prefix@.len() + fuel,
    ensures
        final(store).wf(),
        old(store).as_map().submap_of(final(store).as_map()),
        forall|k: Seq<char>|
            #[trigger] final(store).as_map().contains_key(k) && !old(store).as_map().contains_key(
                k,
            ) ==> good_added(final(store).as_map().index(k), k),
        subtrees_stored(index@, prefix@, fuel as nat, final(store).as_map()),
        sorted_names(entries_view(r@)),
        entries_view(r@) == dir_entries(index@, prefix@, fuel as nat),
        index@.len() == 0 ==> r@.len() == 0,
        forall|i: int|
            0 <= i < index@.len() && spec_starts_with((#[trigger] index@[i]).path@, prefix@)
                && is_leaf_rest(index@[i].path@.skip(prefix@.len() as int)) ==> has_entry(
                entries_view(r@),
                index@[i].path@.skip(prefix@.len() as int),
                index@[i].mode,
                index@[i].hash@,
            ),
        forall|i: int|
            0 <= i < index@.len() && spec_starts_with((#[trigger] index@[i]).path@, prefix@)
                && index@[i].path@.skip(prefix@.len() as int).contains('/') ==> has_dir_entry(
                entries_view(r@),
                top_seg(index@[i].path@.skip(prefix@.len() as int)),
            ),
    decreases fuel,
{
    let items = index.entries();
    let n = items.len();
    let plen = prefix.unicode_len();
    let mut entries: Vec<TreeEntry> = Vec::new();
    proof {
        assert(entries_view(entries@) =~= dir_files(index@.take(0), prefix@));
    }
    for i in 0..n
        invariant
            n == index@.len(),
            items@ == index@,
            plen == prefix@.len(),
            prefix@.len() == 0 || prefix@[plen - 1] == '/',
            forall|ii: int| 0 <= ii < index@.len() ==> wf_path((#[trigger] index@[ii]).path@),
            sorted_names(entries_view(entries@)),
            entries_view(entries@) == dir_files(index@.take(i as int), prefix@),
            n == 0 ==> entries@.len() == 0,
            forall|j: int|
                0 <= j < i && spec_starts_with((#[trigger] index@[j]).path@, prefix@)
                    && is_leaf_rest(index@[j].path@.skip(plen as int)) ==> has_entry(
                    entries_view(entries@),
                    index@[j].path@.skip(plen as int),
                    index@[j].mode,
                    index@[j].hash@,
                ),
    {
        let e = &items[i];
        if starts_with_str(e.path.as_str(), prefix) {
            let elen = e.path.as_str().unicode_len();
            let rest = substring(e.path.as_str(), plen, elen);
            proof {
                assert(rest@ =~= index@[i as int].path@.skip(plen as int));
                lemma_first_index_of_props(rest@, '/');
            }
            match find_char(rest.as_str(), '/') {
                None => {
                    proof {
                        if rest@.contains('/') {
                            let k = choose|k: int| 0 <= k < rest@.len() && rest@[k] == '/';
                            assert(rest@[k] != '/');
                        }
                        if rest@.len() == 0 {
                            let p = index@[i as int].path@;
                            assert(p.subrange(0, plen as int) == prefix@);
                            assert(p =~= prefix@);
                            if plen == 0 {
                                assert(p.len() > 0);
                            } else {
                                assert(p[p.len() - 1] == '/');
                            }
                            assert(false);
                        }
                        assert(is_leaf_rest(rest@));
                    }
                    sorted_insert(
                        &mut entries,
                        TreeEntry { mode: e.mode, name: rest, hash: e.hash.clone() },
                    );
                },
                Some(k) => {
                    proof {
                        assert(rest@.contains('/')) by {
                            assert(rest@[k as int] == '/');
                        }
                    }
                },
            }
        }
        proof {
            let next = index@.take(i + 1);
            assert(next.drop_last() =~= index@.take(i as int));
            assert(next.last() == index@[i as int]);
            assert(entries_view(entries@) == dir_files(next, prefix@));
        }
    }
    let mut segs: Vec<String> = Vec::new();
    for i in 0..n
        invariant
            n == index@.len(),
            items@ == index@,
            plen == prefix@.len(),
            n == 0 ==> segs@.len() == 0,
            prefix@.len() == 0 || prefix@[plen - 1] == '/',
            forall|ii: int| 0 <= ii < index@.len() ==> wf_path((#[trigger] index@[ii]).path@),
            forall|ii: int|
                0 <= ii < index@.len() && spec_starts_with((#[trigger] index@[ii]).path@, prefix@)
                    ==> index@[ii].path@.len() <= plen + fuel,
            segs@.len() > 0 ==> fuel >= 2,
            segs_cover(index@, segs@, prefix@, i as int),
            strings_view(segs@) == dir_segs(index@.take(i as int), prefix@),
    {
        let e = &items[i];
        if starts_with_str(e.path.as_str(), prefix) {
            let elen = e.path.as_str().unicode_len();
            let rest = substring(e.path.as_str(), plen, elen);
            proof {
                assert(rest@ =~= index@[i as int].path@.skip(plen as int));
                lemma_first_index_of_props(rest@, '/');
            }
            match find_char(rest.as_str(), '/') {
                Some(k) => {
                    proof {
                        assert(first_index_of(rest@, '/') == Some(k as int));
                        assert(rest@.contains('/')) by {
                            assert(rest@[k as int] == '/');
                        }
                    }
                    let seg = substring(rest.as_str(), 0, k);
                    proof {
                        assert(seg@ =~= rest@.take(k as int));
                        assert(seg@ == top_seg(rest@));
                    }
                    let mut present = false;
                    let m = segs.len();
                    for t in 0..m
                        invariant
                            m == segs@.len(),
                            present ==> exists|u: int|
                                0 <= u < segs@.len() && (#[trigger] segs@[u])@ == seg@,
                            !present ==> forall|u: int|
                                0 <= u < t ==> (#[trigger] segs@[u])@ != seg@,
                    {
                        if str_eq(segs[t].as_str(), seg.as_str()) {
                            proof {
                                assert(segs@[t as int]@ == seg@);
                            }
                            present = true;
                        }
                    }
                    proof {
                        let p = index@[i as int].path@;
                        assert(rest@[rest@.len() - 1] == p[p.len() - 1]);
                        assert(rest@[k as int] == '/');
                        assert(k as int != rest@.len() - 1);
                        assert(p.len() >= plen + 2);
                        assert(p.len() <= plen + fuel);
                        assert(fuel >= 2);
                    }
                    if !present {
                        let ghost prev = segs@;
                        segs.push(seg);
                        proof {
                            assert(segs@.last()@ == top_seg(rest@));
                            assert forall|u: int|
                                0 <= u < prev.len() implies (#[trigger] segs@[u])@
                                == prev[u]@ by {
                                assert(segs@[u] == prev[u]);
                            }
                            assert(segs_cover(index@, segs@, prefix@, i + 1)) by {
                                assert forall|j: int|
                                    0 <= j < i + 1 && spec_starts_with(
                                        (#[trigger] index@[j]).path@,
                                        prefix@,
                                    ) && index@[j].path@.skip(plen as int).contains(
                                    '/',
                                ) implies exists|t2: int|
                                    0 <= t2 < segs@.len() && (#[trigger] segs@[t2])@ == top_seg(
                                        index@[j].path@.skip(plen as int),
                                    ) by {
                                    if j < i {
                                        assert(segs_cover(index@, prev, prefix@, i as int));
                                        let t2 = choose|t2: int|
                                            0 <= t2 < prev.len() && (#[trigger] prev[t2])@
                                                == top_seg(index@[j].path@.skip(plen as int));
                                        assert(segs@[t2]@ == prev[t2]@);
                                    } else {
                                        assert(segs@[segs@.len() - 1]@ == top_seg(
                                            index@[j].path@.skip(plen as int),
                                        ));
                                    }
                                }
                            }
                            assert(!strings_view(prev).contains(seg@)) by {
                                if strings_view(prev).contains(seg@) {
                                    let u = choose|u: int|
                                        0 <= u < strings_view(prev).len() && strings_view(
                                            prev,
                                        )[u] == seg@;
                                    assert(prev[u]@ == seg@);
                                }
                            }
                            assert(strings_view(segs@) =~= strings_view(prev).push(seg@));
                        }
                    } else {
                        proof {
                            assert(segs_cover(index@, segs@, prefix@, i + 1)) by {
                                assert forall|j: int|
                                    0 <= j < i + 1 && spec_starts_with(
                                        (#[trigger] index@[j]).path@,
                                        prefix@,
                                    ) && index@[j].path@.skip(plen as int).contains(
                                    '/',
                                ) implies exists|t2: int|
                                    0 <= t2 < segs@.len() && (#[trigger] segs@[t2])@ == top_seg(
                                        index@[j].path@.skip(plen as int),
                                    ) by {
                                    if j < i {
                                        assert(segs_cover(index@, segs@, prefix@, i as int));
                                    } else {
                                        let u = choose|u: int|
                                            0 <= u < segs@.len() && (#[trigger] segs@[u])@
                                                == seg@;
                                        assert(segs@[u]@ == top_seg(
                                            index@[j].path@.skip(plen as int),
                                        ));
                                    }
                                }
                            }
                            assert(strings_view(segs@).contains(seg@)) by {
                                let u = choose|u: int|
                                    0 <= u < segs@.len() && (#[trigger] segs@[u])@ == seg@;
                                assert(strings_view(segs@)[u] == seg@);
                            }
                        }
                    }
                },
                None => {
                    proof {
                        if index@[i as int].path@.skip(plen as int).contains('/') {
                            let q = choose|q: int|
                                0 <= q < rest@.len() && rest@[q] == '/';
                            assert(rest@[q] != '/');
                        }
                    }
                },
            }
        }
        proof {
            let next = index@.take(i + 1);
            assert(next.drop_last() =~= index@.take(i as int));
            assert(next.last() == index@[i as int]);
            assert(strings_view(segs@) == dir_segs(next, prefix@));
        }
    }
    let sn = segs.len();
    proof {
        assert(index@.take(n as int) =~= index@);
        assert(strings_view(segs@).skip(0) =~= strings_view(segs@));
    }
    for t in 0..sn
        invariant
            n == index@.len(),
            items@ == index@,
            plen == prefix@.len(),
            sn == segs@.len(),
            n == 0 ==> entries@.len() == 0 && sn == 0,
            sn > 0 ==> fuel >= 2,
            segs_cover(index@, segs@, prefix@, n as int),
            strings_view(segs@) == dir_segs(index@, prefix@),
            insert_dir_entries(
                index@,
                prefix@,
                dir_segs(index@, prefix@),
                dir_files(index@, prefix@),
                fuel as nat,
            ) == insert_dir_entries(
                index@,
                prefix@,
                strings_view(segs@).skip(t as int),
                entries_view(entries@),
                fuel as nat,
            ),
            store.wf(),
            old(store).as_map().submap_of(store.as_map()),
            forall|k: Seq<char>|
                #[trigger] store.as_map().contains_key(k) && !old(
                    store,
                ).as_map().contains_key(k) ==> good_added(store.as_map().index(k), k),
            forall|u: int|
                0 <= u < t ==> store.as_map().contains_key(
                    tree_hash_of(
                        dir_entries(
                            index@,
                            prefix@ + (#[trigger] segs@[u])@ + seq!['/'],
                            (fuel - 1) as nat,
                        ),
                    ),
                ) && subtrees_stored(
                    index@,
                    prefix@ + segs@[u]@ + seq!['/'],
                    (fuel - 1) as nat,
                    store.as_map(),
                ),
            prefix@.len() == 0 || prefix@[plen - 1] == '/',
            forall|i: int| 0 <= i < index@.len() ==> wf_path((#[trigger] index@[i]).path@),
            forall|i: int|
                0 <= i < index@.len() && spec_starts_with((#[trigger] index@[i]).path@, prefix@)
                    ==> index@[i].path@.len() <= plen + fuel,
            sorted_names(entries_view(entries@)),
            forall|j: int|
                0 <= j < n && spec_starts_with((#[trigger] index@[j]).path@, prefix@)
                    && is_leaf_rest(index@[j].path@.skip(plen as int)) ==> has_entry(
                    entries_view(entries@),
                    index@[j].path@.skip(plen as int),
                    index@[j].mode,
                    index@[j].hash@,
                ),
            forall|u: int|
                0 <= u < t ==> has_dir_entry(entries_view(entries@), (#[trigger] segs@[u])@),
        decreases sn - t,
    {
        let seg = segs[t].clone();
        let ghost segv = seg@;
        let ghost m_before = store.as_map();
        assert(fuel >= 2);
        let child_fuel = fuel - 1;
        let mut child_prefix = str_concat(prefix, seg.as_str());
        crate::strutil::push_char(&mut child_prefix, '/');
        proof {
            assert(child_prefix@ =~= prefix@ + segv + seq!['/']);
            assert(child_prefix@[child_prefix@.len() - 1] == '/');
            assert forall|i: int|
                0 <= i < index@.len() && spec_starts_with(
                    (#[trigger] index@[i]).path@,
                    child_prefix@,
                ) implies index@[i].path@.len() <= child_prefix@.len() + child_fuel by {
                let p = index@[i].path@;
                let cp = child_prefix@;
                assert(p.subrange(0, cp.len() as int) == cp);
                assert(p.subrange(0, plen as int) =~= cp.subrange(0, plen as int));
                assert(cp.subrange(0, plen as int) =~= prefix@);
                assert(spec_starts_with(p, prefix@));
                assert(p.len() <= plen + fuel);
            }
        }
        let child_entries = build_dir(index, child_prefix.as_str(), store, child_fuel);
        let ghost m_mid = store.as_map();
        let child_obj = Object::Tree(child_entries);
        let ghost gchild = child_obj;
        let h = store.put(child_obj);
        proof {
            let m_after = store.as_map();
            assert(entries_view(gchild->Tree_0@) == dir_entries(
                index@,
                child_prefix@,
                child_fuel as nat,
            ));
            assert(h@ == tree_hash_of(
                dir_entries(index@, prefix@ + segv + seq!['/'], (fuel - 1) as nat),
            ));
            assert(good_added(gchild, h@));
            assert(m_mid.submap_of(m_after)) by {
                if m_after != m_mid {
                    assert(m_after == m_mid.insert(object_hash(gchild), gchild));
                }
            }
            assert(old(store).as_map().submap_of(m_after)) by {
                assert forall|k: Seq<char>| #[trigger]
                    old(store).as_map().dom().contains(k) implies m_after.dom().contains(k)
                    && old(store).as_map()[k] == m_after[k] by {
                    assert(m_before.dom().contains(k) && m_before[k] == old(
                        store,
                    ).as_map()[k]);
                    assert(m_mid.dom().contains(k) && m_mid[k] == m_before[k]);
                    assert(m_after.dom().contains(k) && m_after[k] == m_mid[k]);
                }
            }
            assert forall|k: Seq<char>|
                #[trigger] m_after.contains_key(k) && !old(store).as_map().contains_key(
                    k,
                ) implies good_added(m_after.index(k), k) by {
                if m_mid.contains_key(k) {
                    assert(m_after[k] == m_mid[k]);
                    if m_before.contains_key(k) {
                        assert(m_mid[k] == m_before[k]);
                        assert(good_added(m_before.index(k), k));
                    } else {
                        assert(good_added(m_mid.index(k), k));
                    }
                } else {
                    assert(m_after == m_mid.insert(object_hash(gchild), gchild));
                    assert(k == object_hash(gchild));
                }
            }
            assert(m_after.contains_key(h@));
            assert(subtrees_stored(
                index@,
                prefix@ + segv + seq!['/'],
                (fuel - 1) as nat,
                m_after,
            )) by {
                lemma_subtrees_stored_mono(
                    index@,
                    child_prefix@,
                    (fuel - 1) as nat,
                    m_mid,
                    m_after,
                );
            }
            assert forall|u: int|
                0 <= u < t + 1 implies store.as_map().contains_key(
                tree_hash_of(
                    dir_entries(
                        index@,
                        prefix@ + (#[trigger] segs@[u])@ + seq!['/'],
                        (fuel - 1) as nat,
                    ),
                ),
            ) && subtrees_stored(
                index@,
                prefix@ + segs@[u]@ + seq!['/'],
                (fuel - 1) as nat,
                store.as_map(),
            ) by {
                if u < t {
                    let hu = tree_hash_of(
                        dir_entries(index@, prefix@ + segs@[u]@ + seq!['/'], (fuel - 1) as nat),
                    );
                    assert(m_before.contains_key(hu));
                    assert(m_mid.dom().contains(hu));
                    assert(m_after.dom().contains(hu));
                    assert(m_before.submap_of(m_after)) by {
                        assert forall|k: Seq<char>| #[trigger]
                            m_before.dom().contains(k) implies m_after.dom().contains(k)
                            && m_before[k] == m_after[k] by {
                            assert(m_mid.dom().contains(k) && m_mid[k] == m_before[k]);
                            assert(m_after.dom().contains(k) && m_after[k] == m_mid[k]);
                        }
                    }
                    lemma_subtrees_stored_mono(
                        index@,
                        prefix@ + segs@[u]@ + seq!['/'],
                        (fuel - 1) as nat,
                        m_before,
                        m_after,
                    );
                }
            }
        }
        let ghost acc = entries_view(entries@);
        sorted_insert(&mut entries, TreeEntry { mode: 0o040000, name: seg, hash: h });
        proof {
            assert(has_dir_entry(entries_view(entries@), (segs@[t as int])@));
            assert forall|u: int|
                0 <= u < t + 1 implies has_dir_entry(
                entries_view(entries@),
                (#[trigger] segs@[u])@,
            ) by {}
            let rest_segs = strings_view(segs@).skip(t as int);
            assert(rest_segs.first() == segv) by {
                assert(strings_view(segs@)[t as int] == segs@[t as int]@);
            }
            assert(rest_segs.drop_first() =~= strings_view(segs@).skip(t + 1));
            assert(entries_view(entries@) == spec_sorted_insert(
                acc,
                (0o040000u32, segv, h@),
            ));
            assert(insert_dir_entries(
                index@,
                prefix@,
                rest_segs,
                acc,
                fuel as nat,
            ) == insert_dir_entries(
                index@,
                prefix@,
                strings_view(segs@).skip(t + 1),
                entries_view(entries@),
                fuel as nat,
            ));
        }
    }
    proof {
        assert forall|i: int|
            0 <= i < index@.len() && spec_starts_with((#[trigger] index@[i]).path@, prefix@)
                && index@[i].path@.skip(plen as int).contains('/') implies has_dir_entry(
            entries_view(entries@),
            top_seg(index@[i].path@.skip(plen as int)),
        ) by {
            assert(segs_cover(index@, segs@, prefix@, n as int));
            let u = choose|u: int|
                0 <= u < segs@.len() && (#[trigger] segs@[u])@ == top_seg(
                    index@[i].path@.skip(plen as int),
                );
            assert(has_dir_entry(entries_view(entries@), (segs@[u])@));
        }
        assert(strings_view(segs@).skip(sn as int) =~= Seq::<Seq<char>>::empty());
        assert(entries_view(entries@) == dir_entries(index@, prefix@, fuel as nat));
        if fuel > 0 {
            assert forall|t: int| 0 <= t < dir_segs(index@, prefix@).len() implies {
                let child = prefix@ + (#[trigger] dir_segs(index@, prefix@)[t]) + seq!['/'];
                &&& store.as_map().contains_key(
                    tree_hash_of(dir_entries(index@, child, (fuel as nat - 1) as nat)),
                )
                &&& subtrees_stored(index@, child, (fuel as nat - 1) as nat, store.as_map())
            } by {
                assert(dir_segs(index@, prefix@)[t] == strings_view(segs@)[t]);
                assert(dir_segs(index@, prefix@)[t] == segs@[t]@);
            }
        }
        assert(subtrees_stored(index@, prefix@, fuel as nat, store.as_map()));
    }
    entries
}

/// Builds the hierarchy of tree objects for the staged files: every
/// directory's tree is written through the store bottom-up, and the root
/// (empty-path) tree is stored and returned. Every staged path must be
/// nonempty with nonempty segments. The root's entries are exactly
/// `dir_entries` of the index, which pins each directory's entry list — files
/// and subtree links in lexicographic name order — and, through each link's
/// hash, the entry list of the subtree it references; the store gains keys
/// for all of them, every added key holding a name-sorted tree whose entries
/// hash to that key.
#[verifier::rlimit(10)]
#[verifier::spinoff_prover]
pub fn build_tree_from_index(index: &Index, store: &mut ObjectStore) -> (r: Result<
    Object,
    VcsError,
>)
    requires
        old(store).wf(),
    ensures
        final(store).wf(),
        match r {
            Err(e) => e is InvalidArgument && (exists|i: int|
                0 <= i < index@.len() && !wf_path((#[trigger] index@[i]).path@)) && *final(store)
                == *old(store),
            Ok(root) => (forall|i: int|
                0 <= i < index@.len() ==> wf_path((#[trigger] index@[i]).path@)) && (root matches
            Object::Tree(es) && sorted_names(entries_view(es@)) && entries_view(es@)
                == dir_entries(index@, Seq::<char>::empty(), max_path_len(index@)) && old(
                store,
            ).as_map().submap_of(final(store).as_map()) && subtrees_stored(
                index@,
                Seq::<char>::empty(),
                max_path_len(index@),
                final(store).as_map(),
            ) && (forall|k: Seq<char>|
                #[trigger] final(store).as_map().contains_key(k) && !old(
                    store,
                ).as_map().contains_key(k) ==> good_added(final(store).as_map().index(k), k))
                && final(store).as_map().contains_key(object_hash(root)) && (index@.len() == 0
                ==> es@.len() == 0) && (forall|i: int|
                0 <= i < index@.len() && is_leaf_rest((#[trigger] index@[i]).path@) ==> has_entry(
                    entries_view(es@),
                    index@[i].path@,
                    index@[i].mode,
                    index@[i].hash@,
                )) && (forall|i: int|
                0 <= i < index@.len() && (#[trigger] index@[i]).path@.contains('/')
                    ==> has_dir_entry(entries_view(es@), top_seg(index@[i].path@)))),
        },
{
    let items = index.entries();
    let n = items.len();
    let mut maxlen: usize = 0;
    proof {
        assert(maxlen as nat == max_path_len(index@.take(0)));
    }
    for i in 0..n
        invariant
            n == index@.len(),
            items@ == index@,
            *store == *old(store),
            store.wf(),
            maxlen as nat == max_path_len(index@.take(i as int)),
            forall|j: int| 0 <= j < i ==> (#[trigger] index@[j]).path@.len() <= maxlen,
            forall|j: int| 0 <= j < i ==> wf_path((#[trigger] index@[j]).path@),
    {
        if !is_wf_path(items[i].path.as_str()) {
            return Err(VcsError::InvalidArgument("Invalid path".to_owned()));
        }
        let l = items[i].path.as_str().unicode_len();
        if l > maxlen {
            maxlen = l;
        }
        proof {
            let next = index@.take(i + 1);
            assert(next.drop_last() =~= index@.take(i as int));
            assert(next.last() == index@[i as int]);
            assert(maxlen as nat == max_path_len(next));
        }
    }
    proof {
        reveal_strlit("");
        assert(""@ =~= Seq::<char>::empty());
        assert(index@.take(n as int) =~= index@);
        assert(maxlen as nat == max_path_len(index@));
    }
    let ghost m0 = store.as_map();
    let es = build_dir(index, "", store, maxlen);
    let ghost m1 = store.as_map();
    proof {
        assert forall|i: int|
            0 <= i < index@.len() implies spec_starts_with(
            (#[trigger] index@[i]).path@,
            Seq::<char>::empty(),
        ) by {
            assert(index@[i].path@.subrange(0, 0) =~= Seq::<char>::empty());
        }
        assert forall|i: int| 0 <= i < index@.len() implies (#[trigger] index@[i]).path@.skip(0)
            =~= index@[i].path@ by {}
    }
    let mut copy: Vec<TreeEntry> = Vec::new();
    let elen = es.len();
    for i in 0..elen
        invariant
            elen == es@.len(),
            copy@ =~= es@.take(i as int),
    {
        copy.push(es[i].duplicate());
        assert(copy@ =~= es@.take(i + 1));
    }
    assert(copy@ =~= es@);
    let root_for_store = Object::Tree(copy);
    let root = Object::Tree(es);
    proof {
        assert(entries_view(root_for_store->Tree_0@) == entries_view(root->Tree_0@));
        assert(crate::object::spec_serialize(root_for_store) == crate::object::spec_serialize(
            root,
        ));
        assert(object_hash(root_for_store) == object_hash(root));
    }
    proof {
        assert(good_added(root_for_store, object_hash(root_for_store)));
    }
    let h = store.put(root_for_store);
    proof {
        let m2 = store.as_map();
        assert(m1.submap_of(m2)) by {
            if m2 != m1 {
                assert(m2 == m1.insert(object_hash(root_for_store), root_for_store));
            }
        }
        assert(m0.submap_of(m1));
        vstd::map_lib::lemma_submap_of_trans(m0, m1, m2);
        assert forall|k: Seq<char>|
            #[trigger] m2.contains_key(k) && !m0.contains_key(k) implies good_added(
            m2.index(k),
            k,
        ) by {
            if m1.contains_key(k) {
                assert(m2[k] == m1[k]);
                assert(good_added(m1.index(k), k));
            } else {
                assert(m2 == m1.insert(object_hash(root_for_store), root_for_store));
                assert(k == object_hash(root_for_store));
            }
        }
        lemma_subtrees_stored_mono(
            index@,
            Seq::<char>::empty(),
            maxlen as nat,
            m1,
            m2,
        );
        assert(m2.contains_key(object_hash(root)));
    }
    Ok(root)
}

} // verus!
