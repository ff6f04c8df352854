//! The reference store: HEAD and named branch pointers as a mutable ref
//! namespace, with branch creation, switching, deletion, merging, rebasing,
//! and the stash log. Operations work on an in-memory model of the ref files;
//! callers persist the changed refs.

use vstd::prelude::*;
use crate::error::VcsError;
use crate::object::{object_hash, strings_view, Object};
use crate::signature::Signature;
use crate::store::ObjectStore;
use crate::strutil::{
    chars_of_str, spec_starts_with, spec_trim, starts_with_str, str_concat, str_eq,
    string_of_chars, substring, trim,
};
use crate::num::{parse_radix_chars, radix_chars, radix_rep, spec_parse_radix_u64};
use vstd::string::StrSliceExecFns;
use vstd::string::StringExecFns;

verus! {

/// The name of the distinguished HEAD reference.
pub open spec fn head_name() -> Seq<char> {
    seq!['H', 'E', 'A', 'D']
}

/// The directory prefix under which branch refs live.
pub open spec fn heads_prefix() -> Seq<char> {
    seq!['r', 'e', 'f', 's', '/', 'h', 'e', 'a', 'd', 's', '/']
}

/// The full ref name of a branch.
pub open spec fn branch_ref_name(n: Seq<char>) -> Seq<char> {
    heads_prefix() + n
}

/// The prefix marking a symbolic ref value.
pub open spec fn symref_prefix() -> Seq<char> {
    seq!['r', 'e', 'f', ':', ' ']
}

/// Whether a ref value is a symbolic indirection.
pub open spec fn is_symbolic(c: Seq<char>) -> bool {
    spec_starts_with(c, symref_prefix())
}

/// The ref a symbolic value points at.
pub open spec fn sym_target(c: Seq<char>) -> Seq<char> {
    spec_trim(c.skip(5))
}

/// The map held by a sequence of name-content pairs, later pairs winning.
pub open spec fn str_pairs_map(ps: Seq<(String, String)>) -> Map<Seq<char>, Seq<char>>
    decreases ps.len(),
{
    if ps.len() == 0 {
        Map::<Seq<char>, Seq<char>>::empty()
    } else {
        str_pairs_map(ps.drop_last()).insert(ps.last().0@, ps.last().1@)
    }
}

/// Whether the names of a pair sequence are pairwise distinct.
pub open spec fn distinct_names(ps: Seq<(String, String)>) -> bool {
    forall|i: int, j: int| 0 <= i < j < ps.len() ==> ps[i].0@ != ps[j].0@
}

/// Key membership and lookup in the map of a pair sequence with distinct
/// names.
proof fn lemma_str_pairs_map(ps: Seq<(String, String)>)
    requires
        distinct_names(ps),
    ensures
        forall|k: Seq<char>|
            #[trigger] str_pairs_map(ps).contains_key(k) <==> exists|i: int|
                0 <= i < ps.len() && ps[i].0@ == k,
        forall|i: int|
            0 <= i < ps.len() ==> str_pairs_map(ps).contains_key(#[trigger] ps[i].0@)
                && str_pairs_map(ps)[ps[i].0@] == ps[i].1@,
    decreases ps.len(),
{
    if ps.len() > 0 {
        assert(distinct_names(ps.drop_last())) by {
            assert(forall|i: int|
                0 <= i < ps.len() - 1 ==> #[trigger] ps.drop_last()[i] == ps[i]);
        }
        lemma_str_pairs_map(ps.drop_last());
        assert forall|i: int| 0 <= i < ps.len() implies str_pairs_map(ps).contains_key(
            #[trigger] ps[i].0@,
        ) && str_pairs_map(ps)[ps[i].0@] == ps[i].1@ by {
            if i < ps.len() - 1 {
                assert(ps.drop_last()[i] == ps[i]);
                assert(ps[i].0@ != ps.last().0@);
            }
        }
        assert forall|k: Seq<char>| #[trigger]
            str_pairs_map(ps).contains_key(k) implies exists|i: int|
            0 <= i < ps.len() && ps[i].0@ == k by {
            if k != ps.last().0@ {
                assert(str_pairs_map(ps.drop_last()).contains_key(k));
                let i = choose|i: int|
                    0 <= i < ps.drop_last().len() && ps.drop_last()[i].0@ == k;
                assert(ps.drop_last()[i] == ps[i]);
                assert(ps[i].0@ == k);
            } else {
                assert(ps[ps.len() - 1].0@ == k);
            }
        }
        assert forall|k: Seq<char>|
            (exists|i: int| 0 <= i < ps.len() && ps[i].0@ == k) implies #[trigger]
            str_pairs_map(ps).contains_key(k) by {
            let i = choose|i: int| 0 <= i < ps.len() && ps[i].0@ == k;
            if i < ps.len() - 1 {
                assert(ps.drop_last()[i].0@ == k);
            }
        }
    }
}

/// The pairs of `ps` whose name is not `k`, in order.
pub open spec fn without_name(ps: Seq<(String, String)>, k: Seq<char>) -> Seq<(String, String)>
    decreases ps.len(),
{
    if ps.len() == 0 {
        Seq::<(String, String)>::empty()
    } else {
        let rest = without_name(ps.drop_last(), k);
        if ps.last().0@ != k {
            rest.push(ps.last())
        } else {
            rest
        }
    }
}

/// Removing a name from the pairs removes it from the map; distinctness and
/// provenance of the rest are kept.
proof fn lemma_without_name(ps: Seq<(String, String)>, k: Seq<char>)
    requires
        distinct_names(ps),
    ensures
        str_pairs_map(without_name(ps, k)) == str_pairs_map(ps).remove(k),
        forall|j: int|
            0 <= j < without_name(ps, k).len() ==> (#[trigger] without_name(ps, k)[j]).0@ != k,
        forall|j: int|
            0 <= j < without_name(ps, k).len() ==> exists|i: int|
                0 <= i < ps.len() && ps[i] == #[trigger] without_name(ps, k)[j],
        distinct_names(without_name(ps, k)),
    decreases ps.len(),
{
    if ps.len() == 0 {
        assert(str_pairs_map(without_name(ps, k)) =~= str_pairs_map(ps).remove(k));
    } else {
        assert(distinct_names(ps.drop_last())) by {
            assert(forall|i: int|
                0 <= i < ps.len() - 1 ==> #[trigger] ps.drop_last()[i] == ps[i]);
        }
        lemma_without_name(ps.drop_last(), k);
        let w = without_name(ps, k);
        let wi = without_name(ps.drop_last(), k);
        if ps.last().0@ != k {
            assert(w == wi.push(ps.last()));
            assert(w.drop_last() =~= wi);
            assert(w.last() == ps.last());
            assert(str_pairs_map(w) == str_pairs_map(wi).insert(ps.last().0@, ps.last().1@));
            assert(str_pairs_map(w) =~= str_pairs_map(ps).remove(k));
            assert forall|j: int| 0 <= j < w.len() implies exists|i: int|
                0 <= i < ps.len() && ps[i] == #[trigger] w[j] by {
                if j < w.len() - 1 {
                    assert(w[j] == wi[j]);
                    let i = choose|i: int|
                        0 <= i < ps.drop_last().len() && ps.drop_last()[i] == wi[j];
                    assert(ps[i] == w[j]);
                } else {
                    assert(w[j] == ps[ps.len() - 1]);
                }
            }
            assert forall|j1: int, j2: int| 0 <= j1 < j2 < w.len() implies w[j1].0@
                != w[j2].0@ by {
                if j2 < w.len() - 1 {
                    assert(w[j1] == wi[j1] && w[j2] == wi[j2]);
                } else {
                    assert(w[j1] == wi[j1]);
                    let i = choose|i: int|
                        0 <= i < ps.drop_last().len() && ps.drop_last()[i] == wi[j1];
                    assert(ps[i] == w[j1]);
                    assert(ps[i].0@ != ps.last().0@);
                }
            }
        } else {
            assert(w == wi);
            assert(str_pairs_map(w) =~= str_pairs_map(ps).remove(k));
            assert forall|j: int| 0 <= j < w.len() implies exists|i: int|
                0 <= i < ps.len() && ps[i] == #[trigger] w[j] by {
                let i = choose|i: int|
                    0 <= i < ps.drop_last().len() && ps.drop_last()[i] == wi[j];
                assert(ps[i] == w[j]);
            }
        }
    }
}

/// How HEAD resolves to a commit: no HEAD at all, a commit hash (possibly
/// empty), or a dangling symbolic target.
pub enum HeadResolution {
    NoHead,
    Commit(Seq<char>),
    MissingBranch(Seq<char>),
}

/// What the current effective commit is: HEAD's own content when detached,
/// the pointed-at branch's content when symbolic, reported dangling when the
/// branch ref is absent.
pub open spec fn spec_resolve_head(m: Map<Seq<char>, Seq<char>>) -> HeadResolution {
    if !m.contains_key(head_name()) {
        HeadResolution::NoHead
    } else {
        let h = m[head_name()];
        if is_symbolic(h) {
            if m.contains_key(sym_target(h)) {
                HeadResolution::Commit(m[sym_target(h)])
            } else {
                HeadResolution::MissingBranch(sym_target(h))
            }
        } else {
            HeadResolution::Commit(h)
        }
    }
}

/// The resolved HEAD as an executable value.
pub enum ResolvedHead {
    NoHead,
    At(String),
    Missing(String),
}

/// The reference namespace and the stash log, as data: ref names mapped to
/// their file contents, and the append-ordered stash hashes.
pub struct RefStore {
    refs: Vec<(String, String)>,
    stash: Vec<String>,
}

impl RefStore {
    /// The refs by full name.
    pub closed spec fn refs_map(&self) -> Map<Seq<char>, Seq<char>> {
        str_pairs_map(self.refs@)
    }

    /// The stash log, in append order.
    pub closed spec fn stash_log(&self) -> Seq<Seq<char>> {
        strings_view(self.stash@)
    }

    /// Well-formedness: ref names are pairwise distinct.
    pub closed spec fn wf(&self) -> bool {
        distinct_names(self.refs@)
    }

    /// An empty ref namespace with an empty stash log.
    pub fn new() -> (r: RefStore)
        ensures
            r.wf(),
            r.refs_map() == Map::<Seq<char>, Seq<char>>::empty(),
            r.stash_log() == Seq::<Seq<char>>::empty(),
    {
        let r = RefStore { refs: Vec::new(), stash: Vec::new() };
        proof {
            assert(r.stash_log() =~= Seq::<Seq<char>>::empty());
        }
        r
    }

    /// Creates the initial namespace: an empty main branch and HEAD pointing
    /// at it.
    pub fn create_initial_refs(&mut self)
        requires
            old(self).wf(),
        ensures
            final(self).wf(),
            final(self).refs_map() == old(self).refs_map().insert(
                branch_ref_name(main_branch()),
                Seq::<char>::empty(),
            ).insert(head_name(), symref_prefix() + branch_ref_name(main_branch())),
            final(self).stash_log() == old(self).stash_log(),
    {
        proof {
            reveal_strlit("refs/heads/main");
            assert("refs/heads/main"@ =~= branch_ref_name(main_branch()));
            reveal_strlit("");
            assert(""@ =~= Seq::<char>::empty());
            reveal_strlit("ref: refs/heads/main");
            assert("ref: refs/heads/main"@ =~= symref_prefix() + branch_ref_name(main_branch()));
            reveal_strlit("HEAD");
            assert("HEAD"@ =~= head_name());
        }
        self.update_ref("refs/heads/main", "");
        self.update_ref("HEAD", "ref: refs/heads/main");
    }

    /// Writes a ref: the name now maps to the target, everything else stays.
    pub fn update_ref(&mut self, ref_name: &str, target: &str)
        requires
            old(self).wf(),
        ensures
            final(self).wf(),
            final(self).refs_map() == old(self).refs_map().insert(ref_name@, target@),
            final(self).stash_log() == old(self).stash_log(),
    {
        let mut kept: Vec<(String, String)> = Vec::new();
        let n = self.refs.len();
        proof {
            assert(without_name(self.refs@.take(0), ref_name@)
                =~= Seq::<(String, String)>::empty());
        }
        for i in 0..n
            invariant
                n == self.refs@.len(),
                kept@ =~= without_name(self.refs@.take(i as int), ref_name@),
        {
            let ghost prefix = self.refs@.take(i as int);
            if !str_eq(self.refs[i].0.as_str(), ref_name) {
                kept.push((self.refs[i].0.clone(), self.refs[i].1.clone()));
            }
            proof {
                let next = self.refs@.take(i + 1);
                assert(next.drop_last() =~= prefix);
                assert(next.last() == self.refs@[i as int]);
                assert(kept@ =~= without_name(next, ref_name@));
            }
        }
        proof {
            assert(self.refs@.take(n as int) =~= self.refs@);
            lemma_without_name(self.refs@, ref_name@);
        }
        let ghost w = kept@;
        kept.push((ref_name.to_owned(), target.to_owned()));
        proof {
            assert(kept@.drop_last() =~= w);
            assert(str_pairs_map(kept@) == str_pairs_map(w).insert(ref_name@, target@));
            assert(str_pairs_map(kept@) =~= str_pairs_map(self.refs@).insert(
                ref_name@,
                target@,
            ));
            assert forall|j1: int, j2: int| 0 <= j1 < j2 < kept@.len() implies kept@[j1].0@
                != kept@[j2].0@ by {
                if j2 < kept@.len() - 1 {
                    assert(kept@[j1] == w[j1] && kept@[j2] == w[j2]);
                } else {
                    assert(kept@[j1] == w[j1]);
                }
            }
        }
        self.refs = kept;
    }

    /// The content of a ref, if it exists.
    pub fn read_ref(&self, ref_name: &str) -> (r: Option<String>)
        requires
            self.wf(),
        ensures
            match r {
                Some(s) => self.refs_map().contains_key(ref_name@)
                    && s@ == self.refs_map().index(ref_name@),
                None => !self.refs_map().contains_key(ref_name@),
            },
    {
        proof {
            lemma_str_pairs_map(self.refs@);
        }
        let n = self.refs.len();
        for i in 0..n
            invariant
                n == self.refs@.len(),
                self.wf(),
                forall|j: int| 0 <= j < i ==> self.refs@[j].0@ != ref_name@,
        {
            if str_eq(self.refs[i].0.as_str(), ref_name) {
                proof {
                    lemma_str_pairs_map(self.refs@);
                }
                return Some(self.refs[i].1.clone());
            }
        }
        None
    }

    /// The content of HEAD, if it exists.
    pub fn read_head(&self) -> (r: Option<String>)
        requires
            self.wf(),
        ensures
            match r {
                Some(s) => self.refs_map().contains_key(head_name())
                    && s@ == self.refs_map().index(head_name()),
                None => !self.refs_map().contains_key(head_name()),
            },
    {
        proof {
            reveal_strlit("HEAD");
            assert("HEAD"@ =~= head_name());
        }
        self.read_ref("HEAD")
    }

    /// Rewrites HEAD to the given content.
    pub fn update_head(&mut self, target: &str)
        requires
            old(self).wf(),
        ensures
            final(self).wf(),
            final(self).refs_map() == old(self).refs_map().insert(head_name(), target@),
            final(self).stash_log() == old(self).stash_log(),
    {
        proof {
            reveal_strlit("HEAD");
            assert("HEAD"@ =~= head_name());
        }
        self.update_ref("HEAD", target);
    }

    /// Resolves HEAD to the current effective commit.
    pub fn resolve_head(&self) -> (r: ResolvedHead)
        requires
            self.wf(),
        ensures
            match r {
                ResolvedHead::NoHead => spec_resolve_head(self.refs_map())
                    is NoHead,
                ResolvedHead::At(s) => spec_resolve_head(self.refs_map()) matches
                    HeadResolution::Commit(c) && s@ == c,
                ResolvedHead::Missing(t) => spec_resolve_head(self.refs_map()) matches
                    HeadResolution::MissingBranch(mb) && t@ == mb,
            },
    {
        proof {
            reveal_strlit("ref: ");
            assert("ref: "@ =~= symref_prefix());
        }
        let head = match self.read_head() {
            Some(h) => h,
            None => {
                return ResolvedHead::NoHead;
            },
        };
        if starts_with_str(head.as_str(), "ref: ") {
            let hlen = head.as_str().unicode_len();
            let raw = substring(head.as_str(), 5, hlen);
            let target = trim(raw.as_str());
            proof {
                assert(raw@ =~= head@.skip(5));
                assert(target@ == sym_target(head@));
            }
            match self.read_ref(target.as_str()) {
                Some(c) => ResolvedHead::At(c),
                None => ResolvedHead::Missing(target),
            }
        } else {
            ResolvedHead::At(head)
        }
    }
}

/// The name of the default branch.
pub open spec fn main_branch() -> Seq<char> {
    seq!['m', 'a', 'i', 'n']
}

/// Creating a branch lists it at the current commit: when HEAD points
/// symbolically at an existing branch and `name` is free, `create_branch`
/// resolves to that branch's hash and leaves a refs map in which the new
/// branch is present with exactly that hash — so a subsequent branch listing
/// includes the pair.
pub proof fn lemma_created_branch_listed(
    m: Map<Seq<char>, Seq<char>>,
    name: Seq<char>,
    branch: Seq<char>,
)
    requires
        m.contains_key(head_name()),
        m[head_name()] == symref_prefix() + branch_ref_name(branch),
        spec_trim(branch_ref_name(branch)) == branch_ref_name(branch),
        m.contains_key(branch_ref_name(branch)),
        !m.contains_key(branch_ref_name(name)),
    ensures
        spec_resolve_head(m) == HeadResolution::Commit(m[branch_ref_name(branch)]),
        m.insert(branch_ref_name(name), m[branch_ref_name(branch)]).contains_key(
            branch_ref_name(name),
        ),
        m.insert(branch_ref_name(name), m[branch_ref_name(branch)])[branch_ref_name(name)]
            == m[branch_ref_name(branch)],
        spec_starts_with(branch_ref_name(name), heads_prefix()),
{
    let h = m[head_name()];
    assert(h.subrange(0, 5) =~= symref_prefix());
    assert(is_symbolic(h));
    assert(h.skip(5) =~= branch_ref_name(branch));
    assert(sym_target(h) == branch_ref_name(branch));
    assert(branch_ref_name(name).subrange(0, 11) =~= heads_prefix());
}

/// The text of a merge commit's message for a branch name.
pub open spec fn merge_message(n: Seq<char>) -> Seq<char> {
    seq!['M', 'e', 'r', 'g', 'e', ' ', 'b', 'r', 'a', 'n', 'c', 'h', ' ', '\''] + n + seq!['\'']
}

/// The text of a rebase commit's message for a branch name.
pub open spec fn rebase_message(n: Seq<char>) -> Seq<char> {
    seq!['R', 'e', 'b', 'a', 's', 'e', ' ', 'o', 'n', 't', 'o', ' '] + n
}

/// The message a stash records: the caller's, or the default.
pub open spec fn chosen_stash_message(m: Option<&str>) -> Seq<char> {
    match m {
        Some(s) => s@,
        None => default_stash_message(),
    }
}

/// The message given to a stash when the caller supplies none.
pub open spec fn default_stash_message() -> Seq<char> {
    seq![
        'W', 'I', 'P', ' ', 'o', 'n', ' ', 'c', 'u', 'r', 'r', 'e', 'n', 't', ' ', 'b', 'r',
        'a', 'n', 'c', 'h',
    ]
}

/// The positional label of a stash entry.
pub open spec fn stash_label(i: nat) -> Seq<char> {
    seq!['s', 't', 'a', 's', 'h', '@', '{'] + radix_rep(10, i) + seq!['}']
}

/// The opening characters of a positional stash reference.
pub open spec fn stash_ref_prefix() -> Seq<char> {
    seq!['s', 't', 'a', 's', 'h', '@', '{']
}

/// The index a positional stash reference addresses, when it is shaped
/// `stash@{N}` with a decimal `N`.
pub open spec fn spec_stash_ref_index(s: Seq<char>) -> Option<u64> {
    if s.len() >= 8 && spec_starts_with(s, stash_ref_prefix()) && s.last() == '}' {
        spec_parse_radix_u64(10, s.subrange(7, s.len() - 1))
    } else {
        None
    }
}

/// What looking a stash reference up yields: the addressed log entry, newest
/// first; a forty-character reference passes through as a raw hash; anything
/// else yields nothing.
pub open spec fn spec_get_stash(log: Seq<Seq<char>>, s: Seq<char>) -> Option<Seq<char>> {
    match spec_stash_ref_index(s) {
        Some(i) => if (i as nat) < log.len() {
            Some(log[log.len() - 1 - i])
        } else if s.len() == 40 {
            Some(s)
        } else {
            None
        },
        None => if s.len() == 40 {
            Some(s)
        } else {
            None
        },
    }
}

/// Whether a commit is shaped as a merge of `tgt` into `cur`: the current
/// tree is kept and both commits are parents, in that order.
pub open spec fn merge_commit_shape(c: Object, cur: Seq<char>, tgt: Seq<char>, n: Seq<char>) -> bool {
    c matches Object::Commit { tree, parents, author, committer, message } && tree@ == cur
        && strings_view(parents@) == seq![cur, tgt] && message@ == merge_message(n)
}

/// Whether a commit is shaped as a rebase onto `tgt`: the current tree is
/// kept and `tgt` is the sole parent.
pub open spec fn rebase_commit_shape(c: Object, cur: Seq<char>, tgt: Seq<char>, n: Seq<char>) -> bool {
    c matches Object::Commit { tree, parents, author, committer, message } && tree@ == cur
        && strings_view(parents@) == seq![tgt] && message@ == rebase_message(n)
}

/// Whether a commit is shaped as a stash: the captured tree, the current
/// commit as sole parent, and the given message.
pub open spec fn stash_commit_shape(c: Object, th: Seq<char>, parent: Seq<char>, msg: Seq<char>) -> bool {
    c matches Object::Commit { tree, parents, author, committer, message } && tree@ == th
        && strings_view(parents@) == seq![parent] && message@ == msg
}

/// How a put leaves the object map: unchanged when the hash was present,
/// extended by the object otherwise.
pub open spec fn store_put_outcome(
    s_old: Map<Seq<char>, Object>,
    s_new: Map<Seq<char>, Object>,
    c: Object,
) -> bool {
    if s_old.contains_key(object_hash(c)) {
        s_new == s_old
    } else {
        s_new == s_old.insert(object_hash(c), c)
    }
}

/// How a commit advances the current ref: the branch HEAD points at when
/// attached, HEAD itself when detached.
pub open spec fn advanced_to(
    m_old: Map<Seq<char>, Seq<char>>,
    m_new: Map<Seq<char>, Seq<char>>,
    h: Seq<char>,
) -> bool
    recommends
        m_old.contains_key(head_name()),
{
    if is_symbolic(m_old[head_name()]) {
        m_new == m_old.insert(sym_target(m_old[head_name()]), h)
    } else {
        m_new == m_old.insert(head_name(), h)
    }
}

/// Whether every listed pair comes from a branch ref among the first `bound`
/// refs, carrying that ref's content.
pub open spec fn listed_from(
    refs: Seq<(String, String)>,
    out: Seq<(String, String)>,
    bound: int,
) -> bool {
    forall|t: int|
        0 <= t < out.len() ==> exists|j: int|
            0 <= j < bound && refs[j].0@ == branch_ref_name((#[trigger] out[t]).0@) && out[t].1@
                == refs[j].1@
}

impl RefStore {
    /// The full ref name of a branch.
    fn branch_ref_of(branch_name: &str) -> (r: String)
        ensures
            r@ == branch_ref_name(branch_name@),
    {
        proof {
            reveal_strlit("refs/heads/");
            assert("refs/heads/"@ =~= heads_prefix());
        }
        str_concat("refs/heads/", branch_name)
    }

    /// Removes a ref from the namespace.
    fn remove_ref(&mut self, ref_name: &str)
        requires
            old(self).wf(),
        ensures
            final(self).wf(),
            final(self).refs_map() == old(self).refs_map().remove(ref_name@),
            final(self).stash_log() == old(self).stash_log(),
    {
        let mut kept: Vec<(String, String)> = Vec::new();
        let n = self.refs.len();
        proof {
            assert(without_name(self.refs@.take(0), ref_name@)
                =~= Seq::<(String, String)>::empty());
        }
        for i in 0..n
            invariant
                n == self.refs@.len(),
                kept@ =~= without_name(self.refs@.take(i as int), ref_name@),
        {
            let ghost prefix = self.refs@.take(i as int);
            if !str_eq(self.refs[i].0.as_str(), ref_name) {
                kept.push((self.refs[i].0.clone(), self.refs[i].1.clone()));
            }
            proof {
                let next = self.refs@.take(i + 1);
                assert(next.drop_last() =~= prefix);
                assert(next.last() == self.refs@[i as int]);
                assert(kept@ =~= without_name(next, ref_name@));
            }
        }
        proof {
            assert(self.refs@.take(n as int) =~= self.refs@);
            lemma_without_name(self.refs@, ref_name@);
        }
        self.refs = kept;
    }

    /// Creates a branch at the current effective commit; an existing branch
    /// of that name, or a dangling HEAD, is refused.
    pub fn create_branch(&mut self, branch_name: &str) -> (r: Result<(), VcsError>)
        requires
            old(self).wf(),
        ensures
            final(self).wf(),
            final(self).stash_log() == old(self).stash_log(),
            old(self).refs_map().contains_key(branch_ref_name(branch_name@)) ==> (
            r matches Err(e) && e is AlreadyExists && *final(self) == *old(self)),
            !old(self).refs_map().contains_key(branch_ref_name(branch_name@)) ==> match
                spec_resolve_head(old(self).refs_map()) {
                HeadResolution::MissingBranch(_) => r matches Err(e) && e is NotFound
                    && *final(self) == *old(self),
                HeadResolution::NoHead => r is Ok && final(self).refs_map() == old(
                    self,
                ).refs_map().insert(branch_ref_name(branch_name@), Seq::<char>::empty()),
                HeadResolution::Commit(c) => r is Ok && final(self).refs_map() == old(
                    self,
                ).refs_map().insert(branch_ref_name(branch_name@), c),
            },
    {
        let bref = Self::branch_ref_of(branch_name);
        match self.read_ref(bref.as_str()) {
            Some(_) => {
                let mut m = "A branch named '".to_owned();
                m.append(branch_name);
                m.append("' already exists");
                return Err(VcsError::AlreadyExists(m));
            },
            None => {},
        }
        let commit = match self.resolve_head() {
            ResolvedHead::NoHead => String::new(),
            ResolvedHead::At(c) => c,
            ResolvedHead::Missing(t) => {
                let mut m = "Branch '".to_owned();
                m.append(t.as_str());
                m.append("' not found");
                return Err(VcsError::NotFound(m));
            },
        };
        self.update_ref(bref.as_str(), commit.as_str());
        Ok(())
    }

    /// All branches, paired with their ref contents: exactly the refs under
    /// the branch directory, each name listed once.
    #[verifier::rlimit(100)]
    pub fn list_branches(&self) -> (r: Vec<(String, String)>)
        requires
            self.wf(),
        ensures
            forall|i: int|
                0 <= i < r@.len() ==> self.refs_map().contains_key(
                    branch_ref_name((#[trigger] r@[i]).0@),
                ) && r@[i].1@ == self.refs_map().index(branch_ref_name(r@[i].0@)),
            forall|n: Seq<char>|
                #[trigger] self.refs_map().contains_key(n) && spec_starts_with(n, heads_prefix())
                    ==> exists|i: int| 0 <= i < r@.len() && branch_ref_name(r@[i].0@) == n,
            forall|i: int, j: int| 0 <= i < j < r@.len() ==> r@[i].0@ != r@[j].0@,
    {
        proof {
            reveal_strlit("refs/heads/");
            assert("refs/heads/"@ =~= heads_prefix());
            lemma_str_pairs_map(self.refs@);
        }
        let mut out: Vec<(String, String)> = Vec::new();
        let n = self.refs.len();
        for i in 0..n
            invariant
                n == self.refs@.len(),
                self.wf(),
                forall|j: int|
                    0 <= j < i && spec_starts_with((#[trigger] self.refs@[j]).0@, heads_prefix())
                        ==> exists|t: int|
                        0 <= t < out@.len() && branch_ref_name(out@[t].0@) == self.refs@[j].0@,
                listed_from(self.refs@, out@, i as int),
                forall|t1: int, t2: int| 0 <= t1 < t2 < out@.len() ==> out@[t1].0@ != out@[t2].0@,
        {
            let name = &self.refs[i].0;
            proof {
                reveal_strlit("refs/heads/");
                assert("refs/heads/"@ =~= heads_prefix());
            }
            if starts_with_str(name.as_str(), "refs/heads/") {
                let nlen = name.as_str().unicode_len();
                let short = substring(name.as_str(), 11, nlen);
                let ghost prev = out@;
                out.push((short, self.refs[i].1.clone()));
                proof {
                    assert(name@.take(11) =~= heads_prefix());
                    assert(branch_ref_name(name@.skip(11)) =~= name@);
                    assert(out@.last().0@ == name@.skip(11));
                    assert(branch_ref_name(out@.last().0@) == name@);
                    assert forall|j: int|
                        0 <= j < i + 1 && spec_starts_with(
                            (#[trigger] self.refs@[j]).0@,
                            heads_prefix(),
                        ) implies exists|t: int|
                        0 <= t < out@.len() && branch_ref_name(out@[t].0@)
                            == self.refs@[j].0@ by {
                        if j < i {
                            let t = choose|t: int|
                                0 <= t < prev.len() && branch_ref_name(prev[t].0@)
                                    == self.refs@[j].0@;
                            assert(out@[t] == prev[t]);
                            assert(branch_ref_name(out@[t].0@) == self.refs@[j].0@);
                        } else {
                            assert(branch_ref_name(out@[out@.len() - 1].0@)
                                == self.refs@[i as int].0@);
                        }
                    }
                    assert(listed_from(self.refs@, out@, i + 1)) by {
                        assert forall|t: int| 0 <= t < out@.len() implies exists|j: int|
                            0 <= j < i + 1 && self.refs@[j].0@ == branch_ref_name(
                                (#[trigger] out@[t]).0@,
                            ) && out@[t].1@ == self.refs@[j].1@ by {
                            if t < out@.len() - 1 {
                                assert(out@[t] == prev[t]);
                                assert(listed_from(self.refs@, prev, i as int));
                                let j = choose|j: int|
                                    0 <= j < i && self.refs@[j].0@ == branch_ref_name(prev[t].0@)
                                        && prev[t].1@ == self.refs@[j].1@;
                                assert(self.refs@[j].0@ == branch_ref_name(out@[t].0@));
                            } else {
                                assert(self.refs@[i as int].0@ == branch_ref_name(out@[t].0@));
                                assert(out@[t].1@ == self.refs@[i as int].1@);
                            }
                        }
                    }
                    assert forall|t1: int, t2: int|
                        0 <= t1 < t2 < out@.len() implies out@[t1].0@ != out@[t2].0@ by {
                        if t2 < out@.len() - 1 {
                            assert(out@[t1] == prev[t1] && out@[t2] == prev[t2]);
                        } else {
                            assert(out@[t1] == prev[t1]);
                            let j = choose|j: int|
                                0 <= j < i && self.refs@[j].0@ == branch_ref_name(prev[t1].0@)
                                    && prev[t1].1@ == self.refs@[j].1@;
                            assert(self.refs@[j].0@ != self.refs@[i as int].0@);
                            if out@[t1].0@ == out@[t2].0@ {
                                assert(branch_ref_name(out@[t1].0@) == branch_ref_name(
                                    out@[t2].0@,
                                ));
                                assert(false);
                            }
                        }
                    }
                }
            } else {
                proof {
                    assert(listed_from(self.refs@, out@, i + 1)) by {
                        assert forall|t: int| 0 <= t < out@.len() implies exists|j: int|
                            0 <= j < i + 1 && self.refs@[j].0@ == branch_ref_name(
                                (#[trigger] out@[t]).0@,
                            ) && out@[t].1@ == self.refs@[j].1@ by {
                            assert(listed_from(self.refs@, out@, i as int));
                            let j = choose|j: int|
                                0 <= j < i && self.refs@[j].0@ == branch_ref_name(out@[t].0@)
                                    && out@[t].1@ == self.refs@[j].1@;
                            assert(0 <= j < i + 1 && self.refs@[j].0@ == branch_ref_name(
                                out@[t].0@,
                            ));
                        }
                    }
                }
            }
        }
        proof {
            assert forall|bn: Seq<char>|
                #[trigger] self.refs_map().contains_key(bn) && spec_starts_with(
                    bn,
                    heads_prefix(),
                ) implies exists|t: int|
                0 <= t < out@.len() && branch_ref_name(out@[t].0@) == bn by {
                let j = choose|j: int| 0 <= j < self.refs@.len() && self.refs@[j].0@ == bn;
                assert(spec_starts_with(self.refs@[j].0@, heads_prefix()));
            }
            assert forall|t: int| 0 <= t < out@.len() implies self.refs_map().contains_key(
                branch_ref_name((#[trigger] out@[t]).0@),
            ) && out@[t].1@ == self.refs_map().index(branch_ref_name(out@[t].0@)) by {
                assert(listed_from(self.refs@, out@, n as int));
                let j = choose|j: int|
                    0 <= j < n && self.refs@[j].0@ == branch_ref_name(out@[t].0@) && out@[t].1@
                        == self.refs@[j].1@;
                assert(self.refs_map().contains_key(self.refs@[j].0@) && self.refs_map().index(
                    self.refs@[j].0@,
                ) == self.refs@[j].1@);
            }
        }
        out
    }

    /// Deletes a branch; a missing branch, or the branch HEAD currently
    /// points at, is refused.
    pub fn delete_branch(&mut self, branch_name: &str) -> (r: Result<(), VcsError>)
        requires
            old(self).wf(),
        ensures
            final(self).wf(),
            final(self).stash_log() == old(self).stash_log(),
            match r {
                Ok(_) => old(self).refs_map().contains_key(branch_ref_name(branch_name@)) && !(
                old(self).refs_map().contains_key(head_name()) && old(self).refs_map().index(
                    head_name(),
                ) == symref_prefix() + branch_ref_name(branch_name@)) && final(self).refs_map()
                    == old(self).refs_map().remove(branch_ref_name(branch_name@)),
                Err(e) => *final(self) == *old(self) && {
                    if !old(self).refs_map().contains_key(branch_ref_name(branch_name@)) {
                        e is NotFound
                    } else {
                        old(self).refs_map().index(head_name()) == symref_prefix()
                            + branch_ref_name(branch_name@) && old(self).refs_map().contains_key(
                            head_name(),
                        ) && e is InvalidArgument
                    }
                },
            },
    {
        let bref = Self::branch_ref_of(branch_name);
        match self.read_ref(bref.as_str()) {
            Some(_) => {},
            None => {
                let mut m = "Branch '".to_owned();
                m.append(branch_name);
                m.append("' does not exist");
                return Err(VcsError::NotFound(m));
            },
        }
        proof {
            reveal_strlit("ref: ");
            assert("ref: "@ =~= symref_prefix());
        }
        let expected = str_concat("ref: ", bref.as_str());
        match self.read_head() {
            Some(content) => {
                if str_eq(content.as_str(), expected.as_str()) {
                    let mut m = "Cannot delete the current branch '".to_owned();
                    m.append(branch_name);
                    m.append("'");
                    return Err(VcsError::InvalidArgument(m));
                }
            },
            None => {},
        }
        self.remove_ref(bref.as_str());
        Ok(())
    }

    /// Merges a branch into the current one: refuses a missing branch, a
    /// missing or dangling HEAD, and a merge of the current commit into
    /// itself; otherwise writes a two-parent commit over the current tree and
    /// advances the current ref to it.
    pub fn merge_branch(&mut self, store: &mut ObjectStore, branch_name: &str) -> (r: Result<
        (),
        VcsError,
    >)
        requires
            old(self).wf(),
            old(store).wf(),
        ensures
            final(self).wf(),
            final(store).wf(),
            final(self).stash_log() == old(self).stash_log(),
            match r {
                Err(e) => *final(self) == *old(self) && *final(store) == *old(store) && {
                    if !old(self).refs_map().contains_key(branch_ref_name(branch_name@)) {
                        e is NotFound
                    } else {
                        match spec_resolve_head(old(self).refs_map()) {
                            HeadResolution::NoHead => e is NotFound,
                            HeadResolution::MissingBranch(_) => e is NotFound,
                            HeadResolution::Commit(cur) => cur == old(self).refs_map().index(
                                branch_ref_name(branch_name@),
                            ) && e is InvalidArgument,
                        }
                    }
                },
                Ok(_) => old(self).refs_map().contains_key(branch_ref_name(branch_name@))
                    && (spec_resolve_head(old(self).refs_map()) matches HeadResolution::Commit(cur)
                    && cur != old(self).refs_map().index(branch_ref_name(branch_name@)) && exists|
                    c: Object,
                |
                    #[trigger] merge_commit_shape(
                        c,
                        cur,
                        old(self).refs_map().index(branch_ref_name(branch_name@)),
                        branch_name@,
                    ) && store_put_outcome(old(store).as_map(), final(store).as_map(), c)
                        && advanced_to(
                        old(self).refs_map(),
                        final(self).refs_map(),
                        object_hash(c),
                    )),
            },
    {
        let bref = Self::branch_ref_of(branch_name);
        let target = match self.read_ref(bref.as_str()) {
            Some(t) => t,
            None => {
                let mut m = "Branch '".to_owned();
                m.append(branch_name);
                m.append("' does not exist");
                return Err(VcsError::NotFound(m));
            },
        };
        let cur = match self.resolve_head() {
            ResolvedHead::NoHead => {
                return Err(VcsError::NotFound("HEAD reference not found".to_owned()));
            },
            ResolvedHead::Missing(t) => {
                let mut m = "Branch '".to_owned();
                m.append(t.as_str());
                m.append("' not found");
                return Err(VcsError::NotFound(m));
            },
            ResolvedHead::At(c) => c,
        };
        if str_eq(cur.as_str(), target.as_str()) {
            let mut m = "Cannot merge branch '".to_owned();
            m.append(branch_name);
            m.append("' into itself");
            return Err(VcsError::InvalidArgument(m));
        }
        proof {
            reveal_strlit("Merge branch '");
            assert("Merge branch '"@ =~= seq![
                'M', 'e', 'r', 'g', 'e', ' ', 'b', 'r', 'a', 'n', 'c', 'h', ' ', '\'',
            ]);
            reveal_strlit("'");
            assert("'"@ =~= seq!['\'']);
        }
        let mut msg = "Merge branch '".to_owned();
        msg.append(branch_name);
        msg.append("'");
        assert(msg@ =~= merge_message(branch_name@));
        let author = Signature::new("Your Name".to_owned(), "you@example.com".to_owned());
        let committer = author.duplicate();
        let mut parents: Vec<String> = Vec::new();
        parents.push(cur.clone());
        parents.push(target);
        let commit = Object::new_commit(cur, parents, author, committer, msg);
        let ghost gc = commit;
        proof {
            assert(strings_view(gc->Commit_parents@) =~= seq![
                spec_resolve_head(self.refs_map())->Commit_0,
                self.refs_map().index(branch_ref_name(branch_name@)),
            ]);
        }
        let merge_hash = store.put(commit);
        let head = match self.read_head() {
            Some(h) => h,
            None => {
                proof {
                    assert(false);
                }
                return Err(VcsError::NotFound("HEAD reference not found".to_owned()));
            },
        };
        proof {
            reveal_strlit("ref: ");
            assert("ref: "@ =~= symref_prefix());
        }
        if starts_with_str(head.as_str(), "ref: ") {
            let hlen = head.as_str().unicode_len();
            let raw = substring(head.as_str(), 5, hlen);
            let branch_target = trim(raw.as_str());
            proof {
                assert(raw@ =~= head@.skip(5));
                assert(branch_target@ == sym_target(head@));
            }
            self.update_ref(branch_target.as_str(), merge_hash.as_str());
        } else {
            self.update_head(merge_hash.as_str());
        }
        proof {
            assert(merge_commit_shape(
                gc,
                spec_resolve_head(old(self).refs_map())->Commit_0,
                old(self).refs_map().index(branch_ref_name(branch_name@)),
                branch_name@,
            ));
        }
        Ok(())
    }

    /// Rebases the current ref onto a branch: refuses a missing branch, a
    /// missing or dangling HEAD, and a rebase onto the current commit;
    /// otherwise writes a commit over the current tree whose sole parent is
    /// the target and advances the current ref to it.
    pub fn rebase(&mut self, store: &mut ObjectStore, branch_name: &str) -> (r: Result<
        (),
        VcsError,
    >)
        requires
            old(self).wf(),
            old(store).wf(),
        ensures
            final(self).wf(),
            final(store).wf(),
            final(self).stash_log() == old(self).stash_log(),
            match r {
                Err(e) => *final(self) == *old(self) && *final(store) == *old(store) && {
                    if !old(self).refs_map().contains_key(branch_ref_name(branch_name@)) {
                        e is NotFound
                    } else {
                        match spec_resolve_head(old(self).refs_map()) {
                            HeadResolution::NoHead => e is NotFound,
                            HeadResolution::MissingBranch(_) => e is NotFound,
                            HeadResolution::Commit(cur) => cur == old(self).refs_map().index(
                                branch_ref_name(branch_name@),
                            ) && e is InvalidArgument,
                        }
                    }
                },
                Ok(_) => old(self).refs_map().contains_key(branch_ref_name(branch_name@))
                    && (spec_resolve_head(old(self).refs_map()) matches HeadResolution::Commit(cur)
                    && cur != old(self).refs_map().index(branch_ref_name(branch_name@)) && exists|
                    c: Object,
                |
                    #[trigger] rebase_commit_shape(
                        c,
                        cur,
                        old(self).refs_map().index(branch_ref_name(branch_name@)),
                        branch_name@,
                    ) && store_put_outcome(old(store).as_map(), final(store).as_map(), c)
                        && advanced_to(
                        old(self).refs_map(),
                        final(self).refs_map(),
                        object_hash(c),
                    )),
            },
    {
        let bref = Self::branch_ref_of(branch_name);
        let target = match self.read_ref(bref.as_str()) {
            Some(t) => t,
            None => {
                let mut m = "Branch '".to_owned();
                m.append(branch_name);
                m.append("' does not exist");
                return Err(VcsError::NotFound(m));
            },
        };
        let cur = match self.resolve_head() {
            ResolvedHead::NoHead => {
                return Err(VcsError::NotFound("HEAD reference not found".to_owned()));
            },
            ResolvedHead::Missing(_) => {
                return Err(
                    VcsError::NotFound("Current branch reference not found".to_owned()),
                );
            },
            ResolvedHead::At(c) => c,
        };
        if str_eq(cur.as_str(), target.as_str()) {
            let mut m = "Cannot rebase branch '".to_owned();
            m.append(branch_name);
            m.append("' onto itself");
            return Err(VcsError::InvalidArgument(m));
        }
        proof {
            reveal_strlit("Rebase onto ");
            assert("Rebase onto "@ =~= seq![
                'R', 'e', 'b', 'a', 's', 'e', ' ', 'o', 'n', 't', 'o', ' ',
            ]);
        }
        let mut msg = "Rebase onto ".to_owned();
        msg.append(branch_name);
        assert(msg@ =~= rebase_message(branch_name@));
        let author = Signature::new("Your Name".to_owned(), "you@example.com".to_owned());
        let committer = author.duplicate();
        let mut parents: Vec<String> = Vec::new();
        parents.push(target);
        let commit = Object::new_commit(cur, parents, author, committer, msg);
        let ghost gc = commit;
        proof {
            assert(strings_view(gc->Commit_parents@) =~= seq![
                self.refs_map().index(branch_ref_name(branch_name@)),
            ]);
        }
        let rebase_hash = store.put(commit);
        let head = match self.read_head() {
            Some(h) => h,
            None => {
                proof {
                    assert(false);
                }
                return Err(VcsError::NotFound("HEAD reference not found".to_owned()));
            },
        };
        proof {
            reveal_strlit("ref: ");
            assert("ref: "@ =~= symref_prefix());
        }
        if starts_with_str(head.as_str(), "ref: ") {
            let hlen = head.as_str().unicode_len();
            let raw = substring(head.as_str(), 5, hlen);
            let branch_target = trim(raw.as_str());
            proof {
                assert(raw@ =~= head@.skip(5));
                assert(branch_target@ == sym_target(head@));
            }
            self.update_ref(branch_target.as_str(), rebase_hash.as_str());
        } else {
            self.update_head(rebase_hash.as_str());
        }
        proof {
            assert(rebase_commit_shape(
                gc,
                spec_resolve_head(old(self).refs_map())->Commit_0,
                old(self).refs_map().index(branch_ref_name(branch_name@)),
                branch_name@,
            ));
        }
        Ok(())
    }

    /// Appends a stash commit hash to the log.
    pub fn add_to_stash_list(&mut self, stash_hash: String)
        ensures
            final(self).refs_map() == old(self).refs_map(),
            final(self).wf() == old(self).wf(),
            final(self).stash_log() == old(self).stash_log().push(stash_hash@),
    {
        let ghost before = self.stash@;
        self.stash.push(stash_hash);
        proof {
            assert(strings_view(self.stash@) =~= strings_view(before).push(
                self.stash@.last()@,
            ));
        }
    }

    /// Records a stash: a commit of the captured workspace tree (the hash
    /// `WorkspaceState::create_tree` returns for the capture), parented on
    /// the current commit, appended to the stash log. The hash of the new
    /// commit is returned.
    #[verifier::rlimit(100)]
    #[verifier::spinoff_prover]
    pub fn create_stash(&mut self, store: &mut ObjectStore, tree_hash: &str, message: Option<
        &str,
    >) -> (r: Result<String, VcsError>)
        requires
            old(self).wf(),
            old(store).wf(),
        ensures
            final(self).wf(),
            final(store).wf(),
            final(self).refs_map() == old(self).refs_map(),
            match r {
                Err(e) => *final(self) == *old(self) && *final(store) == *old(store) && e
                    is NotFound && !(spec_resolve_head(old(self).refs_map()) is Commit),
                Ok(h) => spec_resolve_head(old(self).refs_map()) matches HeadResolution::Commit(
                    parent,
                ) && exists|c: Object|
                    #[trigger] stash_commit_shape(
                        c,
                        tree_hash@,
                        parent,
                        chosen_stash_message(message),
                    ) && h@ == object_hash(c) && store_put_outcome(
                        old(store).as_map(),
                        final(store).as_map(),
                        c,
                    ) && final(self).stash_log() == old(self).stash_log().push(object_hash(c)),
            },
    {
        let parent = match self.resolve_head() {
            ResolvedHead::NoHead => {
                return Err(VcsError::NotFound("HEAD reference not found".to_owned()));
            },
            ResolvedHead::Missing(_) => {
                return Err(
                    VcsError::NotFound("Current branch reference not found".to_owned()),
                );
            },
            ResolvedHead::At(c) => c,
        };
        proof {
            reveal_strlit("WIP on current branch");
            assert("WIP on current branch"@ =~= default_stash_message());
        }
        let msg: String = match message {
            Some(m) => m.to_owned(),
            None => "WIP on current branch".to_owned(),
        };
        let author = Signature::new("Your Name".to_owned(), "you@example.com".to_owned());
        let committer = author.duplicate();
        let mut parents: Vec<String> = Vec::new();
        parents.push(parent);
        let commit = Object::new_commit(tree_hash.to_owned(), parents, author, committer, msg);
        let ghost gc = commit;
        proof {
            assert(strings_view(gc->Commit_parents@) =~= seq![
                spec_resolve_head(self.refs_map())->Commit_0,
            ]);
        }
        let stash_hash = store.put(commit);
        self.add_to_stash_list(stash_hash.clone());
        proof {
            assert(stash_commit_shape(
                gc,
                tree_hash@,
                spec_resolve_head(old(self).refs_map())->Commit_0,
                chosen_stash_message(message),
            ));
        }
        Ok(stash_hash)
    }

    /// All stashes, newest first: entry `i` is labelled `stash@{i}` and
    /// holds the hash appended `i` entries from the end of the log.
    pub fn list_stashes(&self) -> (r: Vec<(String, String)>)
        ensures
            r@.len() == self.stash_log().len(),
            forall|i: int|
                0 <= i < r@.len() ==> (#[trigger] r@[i]).0@ == stash_label(i as nat) && r@[i].1@
                    == self.stash_log()[self.stash_log().len() - 1 - i],
    {
        proof {
            reveal_strlit("stash@{");
            assert("stash@{"@ =~= seq!['s', 't', 'a', 's', 'h', '@', '{']);
            reveal_strlit("}");
            assert("}"@ =~= seq!['}']);
        }
        let mut out: Vec<(String, String)> = Vec::new();
        let n = self.stash.len();
        for i in 0..n
            invariant
                n == self.stash@.len(),
                out@.len() == i,
                forall|t: int|
                    0 <= t < i ==> (#[trigger] out@[t]).0@ == stash_label(t as nat) && out@[t].1@
                        == self.stash_log()[self.stash_log().len() - 1 - t],
        {
            proof {
                reveal_strlit("stash@{");
                assert("stash@{"@ =~= seq!['s', 't', 'a', 's', 'h', '@', '{']);
                reveal_strlit("}");
                assert("}"@ =~= seq!['}']);
            }
            let mut label = "stash@{".to_owned();
            let digits = radix_chars(i as u64, 10);
            let ds = string_of_chars(&digits);
            label.append(ds.as_str());
            label.append("}");
            assert(label@ =~= stash_label(i as nat));
            let value = self.stash[n - 1 - i].clone();
            out.push((label, value));
        }
        out
    }

    /// Looks a stash up: `stash@{N}` addresses the log newest-first; a
    /// forty-character reference is taken as a raw hash; anything else, or an
    /// index past the log, yields nothing.
    pub fn get_stash(&self, stash_ref: &str) -> (r: Option<String>)
        ensures
            match r {
                Some(v) => spec_get_stash(self.stash_log(), stash_ref@) == Some(v@),
                None => spec_get_stash(self.stash_log(), stash_ref@) is None,
            },
    {
        proof {
            reveal_strlit("stash@{");
            assert("stash@{"@ =~= stash_ref_prefix());
        }
        let len = stash_ref.unicode_len();
        if len >= 8 && starts_with_str(stash_ref, "stash@{") && stash_ref.get_char(len - 1)
            == '}' {
            let mid = substring(stash_ref, 7, len - 1);
            let mid_chars = chars_of_str(mid.as_str());
            proof {
                assert(mid@ =~= stash_ref@.subrange(7, stash_ref@.len() - 1));
            }
            match parse_radix_chars(&mid_chars, 10) {
                Some(i) => {
                    let n = self.stash.len();
                    if i < n as u64 {
                        let idx = n - 1 - (i as usize);
                        return Some(self.stash[idx].clone());
                    }
                },
                None => {},
            }
        }
        if len == 40 {
            return Some(stash_ref.to_owned());
        }
        None
    }

    /// Drops one stash entry by `stash@{N}` reference: a malformed reference
    /// or one past the log is refused; otherwise the addressed entry leaves
    /// the log.
    pub fn drop_stash(&mut self, stash_ref: &str) -> (r: Result<(), VcsError>)
        requires
            old(self).wf(),
        ensures
            final(self).wf(),
            final(self).refs_map() == old(self).refs_map(),
            match r {
                Ok(_) => spec_stash_ref_index(stash_ref@) matches Some(i) && (i as nat) < old(
                    self,
                ).stash_log().len() && final(self).stash_log() == old(self).stash_log().remove(
                    old(self).stash_log().len() - 1 - i,
                ),
                Err(e) => *final(self) == *old(self) && match spec_stash_ref_index(stash_ref@) {
                    Some(i) => (i as nat) >= old(self).stash_log().len() && e is NotFound,
                    None => e is InvalidArgument,
                },
            },
    {
        proof {
            reveal_strlit("stash@{");
            assert("stash@{"@ =~= stash_ref_prefix());
        }
        let len = stash_ref.unicode_len();
        if !(len >= 8 && starts_with_str(stash_ref, "stash@{") && stash_ref.get_char(len - 1)
            == '}') {
            return Err(
                VcsError::InvalidArgument("Invalid stash reference format".to_owned()),
            );
        }
        let mid = substring(stash_ref, 7, len - 1);
        let mid_chars = chars_of_str(mid.as_str());
        proof {
            assert(mid@ =~= stash_ref@.subrange(7, stash_ref@.len() - 1));
        }
        let i = match parse_radix_chars(&mid_chars, 10) {
            Some(i) => i,
            None => {
                return Err(VcsError::InvalidArgument("Invalid stash reference".to_owned()));
            },
        };
        let n = self.stash.len();
        if i >= n as u64 {
            let mut m = "Stash '".to_owned();
            m.append(stash_ref);
            m.append("' does not exist");
            return Err(VcsError::NotFound(m));
        }
        let idx = n - 1 - (i as usize);
        let ghost before = self.stash@;
        self.stash.remove(idx);
        proof {
            assert(strings_view(self.stash@) =~= strings_view(before).remove(idx as int));
        }
        Ok(())
    }

    /// Rewrites HEAD to point symbolically at a branch; a missing branch is
    /// refused.
    pub fn switch_branch(&mut self, branch_name: &str) -> (r: Result<(), VcsError>)
        requires
            old(self).wf(),
        ensures
            final(self).wf(),
            final(self).stash_log() == old(self).stash_log(),
            match r {
                Ok(_) => old(self).refs_map().contains_key(branch_ref_name(branch_name@))
                    && final(self).refs_map() == old(self).refs_map().insert(
                    head_name(),
                    symref_prefix() + branch_ref_name(branch_name@),
                ),
                Err(e) => !old(self).refs_map().contains_key(branch_ref_name(branch_name@)) && e
                    is NotFound && *final(self) == *old(self),
            },
    {
        let bref = Self::branch_ref_of(branch_name);
        match self.read_ref(bref.as_str()) {
            Some(_) => {},
            None => {
                let mut m = "Branch '".to_owned();
                m.append(branch_name);
                m.append("' does not exist");
                return Err(VcsError::NotFound(m));
            },
        }
        proof {
            reveal_strlit("ref: ");
            assert("ref: "@ =~= symref_prefix());
        }
        let target = str_concat("ref: ", bref.as_str());
        self.update_head(target.as_str());
        Ok(())
    }
}

} // verus!
