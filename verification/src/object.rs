//! The object model: blobs, trees and commits, their canonical byte
//! serializations, the parsers that invert them, and their content hashes.

use vstd::prelude::*;
use crate::error::VcsError;
use crate::hash::{hash_raw_object, spec_hash_raw};
use crate::hex::{hex_decode, hex_encode, hex_of_bytes, spec_hex_decode};
use crate::num::{parse_radix_chars, radix_chars, radix_rep, spec_parse_radix_u64};
use crate::signature::{signature_text, spec_parse_signature, Signature};
use crate::strutil::{
    chars_of_str, find_byte, find_char, first_index_of, first_index_of_byte,
    lemma_first_index_of_byte_props, lemma_first_index_of_props, push_char, spec_trim, str_eq,
    string_from_utf8, string_of_chars, subrange_vec, substring, trim,
};
use vstd::string::StrSliceExecFns;
use vstd::string::StringExecFns;
use vstd::string::StringSliceAdditionalSpecFns;
use vstd::utf8::{decode_utf8, encode_utf8, valid_utf8};

verus! {

/// One entry of a tree object: a file or subtree under a single name.
#[derive(Debug, Clone)]
pub struct TreeEntry {
    /// The mode bits, octal-significant (0o100644 file, 0o040000 subtree).
    pub mode: u32,
    /// The entry's name: one path segment.
    pub name: String,
    /// The forty-digit hexadecimal hash of the referenced blob or tree.
    pub hash: String,
}

/// A content-addressed object: raw bytes, a directory listing, or a commit.
#[derive(Debug)]
pub enum Object {
    Blob(Vec<u8>),
    Tree(Vec<TreeEntry>),
    Commit {
        tree: String,
        parents: Vec<String>,
        author: Signature,
        committer: Signature,
        message: String,
    },
}

/// A tree entry as a mathematical value: mode, name, hash.
pub type EntryView = (u32, Seq<char>, Seq<char>);

/// A parsed commit as a mathematical value: tree hash, parent hashes, author,
/// committer (each name, email, timestamp, timezone), and message.
pub type SigView = (Seq<char>, Seq<char>, u64, Seq<char>);

/// The views of a sequence of tree entries.
pub open spec fn entries_view(es: Seq<TreeEntry>) -> Seq<EntryView> {
    es.map_values(|e: TreeEntry| (e.mode, e.name@, e.hash@))
}

/// The views of a sequence of strings.
pub open spec fn strings_view(v: Seq<String>) -> Seq<Seq<char>> {
    v.map_values(|s: String| s@)
}

/// The view of a signature: name, email, timestamp, timezone.
pub open spec fn sig_view(s: Signature) -> SigView {
    (s.name@, s.email@, s.timestamp, s.timezone@)
}

/// The text of a signature view.
pub open spec fn sig_view_text(s: SigView) -> Seq<char> {
    signature_text(s.0, s.1, s.2 as nat, s.3)
}

/// An octal rendering left-padded with zeros to at least six digits.
pub open spec fn oct6(m: nat) -> Seq<char> {
    let r = radix_rep(8, m);
    if r.len() >= 6 {
        r
    } else {
        Seq::new((6 - r.len()) as nat, |i: int| '0') + r
    }
}

/// The twenty hash bytes a tree entry's hash field serializes to: its
/// hexadecimal decoding, or twenty zero bytes when it is not valid
/// hexadecimal.
pub open spec fn tree_hash_bytes(h: Seq<char>) -> Seq<u8> {
    match spec_hex_decode(h) {
        Some(bs) => bs,
        None => Seq::new(20, |i: int| 0u8),
    }
}

/// The serialization of one tree entry:
/// `<mode> <name>\0<hash bytes>`.
pub open spec fn spec_ser_entry(e: EntryView) -> Seq<u8> {
    encode_utf8(oct6(e.0 as nat) + seq![' '] + e.1) + seq![0u8] + tree_hash_bytes(e.2)
}

/// The serialization of a tree: its entries' serializations, in order.
pub open spec fn spec_ser_tree(es: Seq<EntryView>) -> Seq<u8>
    decreases es.len(),
{
    if es.len() == 0 {
        Seq::<u8>::empty()
    } else {
        spec_ser_entry(es.first()) + spec_ser_tree(es.drop_first())
    }
}

/// The keyword opening a tree line of a commit.
pub open spec fn kw_tree() -> Seq<char> {
    seq!['t', 'r', 'e', 'e']
}

/// The keyword opening a parent line of a commit.
pub open spec fn kw_parent() -> Seq<char> {
    seq!['p', 'a', 'r', 'e', 'n', 't']
}

/// The keyword opening an author line of a commit.
pub open spec fn kw_author() -> Seq<char> {
    seq!['a', 'u', 't', 'h', 'o', 'r']
}

/// The keyword opening a committer line of a commit.
pub open spec fn kw_committer() -> Seq<char> {
    seq!['c', 'o', 'm', 'm', 'i', 't', 't', 'e', 'r']
}

/// The parent lines of a commit's text, one per parent hash.
pub open spec fn parents_text(ps: Seq<Seq<char>>) -> Seq<char>
    decreases ps.len(),
{
    if ps.len() == 0 {
        Seq::<char>::empty()
    } else {
        parents_text(ps.drop_last()) + kw_parent() + seq![' '] + ps.last() + seq!['\n']
    }
}

/// The full text of a commit: tree line, parent lines, author and committer
/// lines, a blank line, then the raw message.
pub open spec fn commit_text(
    tree: Seq<char>,
    parents: Seq<Seq<char>>,
    author: SigView,
    committer: SigView,
    message: Seq<char>,
) -> Seq<char> {
    kw_tree() + seq![' '] + tree + seq!['\n'] + parents_text(parents) + kw_author() + seq![' ']
        + sig_view_text(author) + seq!['\n'] + kw_committer() + seq![' '] + sig_view_text(
        committer,
    ) + seq!['\n'] + seq!['\n'] + message
}

/// The canonical serialization of an object: a blob's raw bytes, a tree's
/// entry records, or a commit's text encoded as UTF-8.
pub open spec fn spec_serialize(o: Object) -> Seq<u8> {
    match o {
        Object::Blob(data) => data@,
        Object::Tree(entries) => spec_ser_tree(entries_view(entries@)),
        Object::Commit { tree, parents, author, committer, message } => encode_utf8(
            commit_text(
                tree@,
                strings_view(parents@),
                sig_view(author),
                sig_view(committer),
                message@,
            ),
        ),
    }
}

/// The type name of an object, as characters.
pub open spec fn type_chars(o: Object) -> Seq<char> {
    match o {
        Object::Blob(_) => seq!['b', 'l', 'o', 'b'],
        Object::Tree(_) => seq!['t', 'r', 'e', 'e'],
        Object::Commit { .. } => seq!['c', 'o', 'm', 'm', 'i', 't'],
    }
}

/// The content hash of an object: the digest of its typed header followed by
/// its serialization.
pub open spec fn object_hash(o: Object) -> Seq<char> {
    spec_hash_raw(type_chars(o), spec_serialize(o))
}

/// The hash a tree with exactly these entries has: a tree object's hash
/// depends on its entry views alone.
pub open spec fn tree_hash_of(vs: Seq<EntryView>) -> Seq<char> {
    spec_hash_raw(seq!['t', 'r', 'e', 'e'], spec_ser_tree(vs))
}

impl Object {
    /// A blob holding the given bytes.
    pub fn new_blob(content: Vec<u8>) -> (r: Object)
        ensures
            r == Object::Blob(content),
    {
        Object::Blob(content)
    }

    /// A tree with no entries yet.
    pub fn new_tree() -> (r: Object)
        ensures
            r matches Object::Tree(es) && es@ =~= Seq::<TreeEntry>::empty(),
    {
        Object::Tree(Vec::new())
    }

    /// A commit of `tree` with the given parents, identities and message.
    pub fn new_commit(
        tree: String,
        parents: Vec<String>,
        author: Signature,
        committer: Signature,
        message: String,
    ) -> (r: Object)
        ensures
            r == (Object::Commit { tree, parents, author, committer, message }),
    {
        Object::Commit { tree, parents, author, committer, message }
    }

    /// The object's type name.
    pub fn type_str(&self) -> (r: &'static str)
        ensures
            r@ == type_chars(*self),
    {
        match self {
            Object::Blob(_) => {
                proof {
                    reveal_strlit("blob");
                    assert("blob"@ =~= seq!['b', 'l', 'o', 'b']);
                }
                "blob"
            },
            Object::Tree(_) => {
                proof {
                    reveal_strlit("tree");
                    assert("tree"@ =~= seq!['t', 'r', 'e', 'e']);
                }
                "tree"
            },
            Object::Commit { .. } => {
                proof {
                    reveal_strlit("commit");
                    assert("commit"@ =~= seq!['c', 'o', 'm', 'm', 'i', 't']);
                }
                "commit"
            },
        }
    }

    /// The byte length of the object's serialization.
    pub fn len(&self) -> (r: usize)
        ensures
            r == spec_serialize(*self).len(),
    {
        let s = self.serialize();
        s.len()
    }

    /// The canonical serialization of the object.
    pub fn serialize(&self) -> (r: Vec<u8>)
        ensures
            r@ == spec_serialize(*self),
    {
        match self {
            Object::Blob(content) => content.clone(),
            Object::Tree(entries) => {
                let mut out: Vec<u8> = Vec::new();
                let len = entries.len();
                assert(entries@.skip(0) =~= entries@);
                assert(entries_view(entries@).skip(0) =~= entries_view(entries@));
                for i in 0..len
                    invariant
                        len == entries@.len(),
                        spec_ser_tree(entries_view(entries@)) =~= out@ + spec_ser_tree(
                            entries_view(entries@).skip(i as int),
                        ),
                {
                    let ghost before = out@;
                    let e = &entries[i];
                    let hdr = tree_entry_header(e);
                    let mut hb = hdr.as_str().as_bytes_vec();
                    out.append(&mut hb);
                    out.push(0u8);
                    match hex_decode(e.hash.as_str()) {
                        Some(mut v) => {
                            out.append(&mut v);
                        },
                        None => {
                            let mut zeros: Vec<u8> = Vec::new();
                            for z in 0..20usize
                                invariant
                                    zeros@ =~= Seq::new(z as nat, |k: int| 0u8),
                            {
                                zeros.push(0u8);
                                assert(zeros@ =~= Seq::new((z + 1) as nat, |k: int| 0u8));
                            }
                            out.append(&mut zeros);
                        },
                    }
                    proof {
                        let views = entries_view(entries@);
                        let ev = views[i as int];
                        assert(ev == (e.mode, e.name@, e.hash@));
                        assert(out@ =~= before + spec_ser_entry(ev));
                        let rest = views.skip(i as int);
                        assert(rest.first() == ev);
                        assert(rest.drop_first() =~= views.skip(i + 1));
                        assert(spec_ser_tree(rest) =~= spec_ser_entry(ev) + spec_ser_tree(
                            views.skip(i + 1),
                        ));
                        assert(spec_ser_tree(views) =~= out@ + spec_ser_tree(views.skip(i + 1)));
                    }
                }
                proof {
                    assert(entries_view(entries@).skip(len as int)
                        =~= Seq::<EntryView>::empty());
                    assert(spec_ser_tree(entries_view(entries@)) =~= out@);
                }
                out
            },
            Object::Commit { tree, parents, author, committer, message } => {
                proof {
                    reveal_strlit("tree ");
                    assert("tree "@ =~= kw_tree() + seq![' ']);
                    reveal_strlit("parent ");
                    assert("parent "@ =~= kw_parent() + seq![' ']);
                    reveal_strlit("author ");
                    assert("author "@ =~= kw_author() + seq![' ']);
                    reveal_strlit("committer ");
                    assert("committer "@ =~= kw_committer() + seq![' ']);
                }
                let mut t = "tree ".to_owned();
                t.append(tree.as_str());
                push_char(&mut t, '\n');
                let ghost head = kw_tree() + seq![' '] + tree@ + seq!['\n'];
                assert(t@ =~= head);
                let plen = parents.len();
                let ghost pviews = strings_view(parents@);
                assert(parents_text(pviews.take(0)) =~= Seq::<char>::empty());
                assert(t@ =~= head + parents_text(pviews.take(0)));
                for i in 0..plen
                    invariant
                        plen == parents@.len(),
                        pviews == strings_view(parents@),
                        head == kw_tree() + seq![' '] + tree@ + seq!['\n'],
                        t@ =~= head + parents_text(pviews.take(i as int)),
                {
                    t.append("parent ");
                    t.append(parents[i].as_str());
                    push_char(&mut t, '\n');
                    proof {
                        reveal_strlit("parent ");
                        assert("parent "@ =~= kw_parent() + seq![' ']);
                        assert(pviews.take(i + 1).drop_last() =~= pviews.take(i as int));
                        assert(pviews.take(i + 1).last() == parents@[i as int]@);
                        assert(parents_text(pviews.take(i + 1)) =~= parents_text(
                            pviews.take(i as int),
                        ) + (kw_parent() + seq![' '] + parents@[i as int]@ + seq!['\n']));
                        assert(t@ =~= head + parents_text(pviews.take(i + 1)));
                    }
                }
                assert(pviews.take(plen as int) =~= pviews);
                t.append("author ");
                let af = author.format();
                t.append(af.as_str());
                push_char(&mut t, '\n');
                t.append("committer ");
                let cf = committer.format();
                t.append(cf.as_str());
                push_char(&mut t, '\n');
                push_char(&mut t, '\n');
                t.append(message.as_str());
                assert(t@ =~= commit_text(
                    tree@,
                    pviews,
                    sig_view(*author),
                    sig_view(*committer),
                    message@,
                ));
                t.as_str().as_bytes_vec()
            },
        }
    }

    /// The content hash of the object: the digest of its typed header and
    /// serialization, as forty hexadecimal digits.
    pub fn hash(&self) -> (r: String)
        ensures
            r@ == object_hash(*self),
            r@.len() == 40,
    {
        let content = self.serialize();
        hash_raw_object(self.type_str(), content.as_slice())
    }

    /// Appends an entry to a tree object; any other object is left unchanged
    /// and refused.
    pub fn add_tree_entry(&mut self, name: String, mode: u32, hash: String) -> (r: Result<
        (),
        VcsError,
    >)
        ensures
            match r {
                Ok(_) => (*old(self)) matches Object::Tree(es) && (*final(self)) matches Object::Tree(es2)
                    && es2@ == es@.push(TreeEntry { mode, name, hash }),
                Err(e) => !((*old(self)) is Tree) && *final(self) == *old(self) && e
                    is InvalidArgument,
            },
    {
        match self {
            Object::Tree(entries) => {
                entries.push(TreeEntry { mode, name, hash });
                Ok(())
            },
            _ => Err(
                VcsError::InvalidArgument("Can only add entries to tree objects".to_owned()),
            ),
        }
    }
}

/// What parsing a serialized tree yields: entry views in order, or nothing on
/// a missing separator, bad mode, bad UTF-8, or a short hash field.
pub open spec fn spec_parse_tree(d: Seq<u8>) -> Option<Seq<EntryView>>
    decreases d.len(),
    via spec_parse_tree_decreases
{
    if d.len() == 0 {
        Some(Seq::<EntryView>::empty())
    } else {
        match first_index_of_byte(d, 32u8) {
            None => None,
            Some(sp) => {
                let mode_bytes = d.take(sp);
                let rest1 = d.skip(sp + 1);
                if !valid_utf8(mode_bytes) {
                    None
                } else {
                    match spec_parse_radix_u64(8, decode_utf8(mode_bytes)) {
                        None => None,
                        Some(m) => if m > u32::MAX {
                            None
                        } else {
                            match first_index_of_byte(rest1, 0u8) {
                                None => None,
                                Some(z) => {
                                    let name_bytes = rest1.take(z);
                                    let rest2 = rest1.skip(z + 1);
                                    if !valid_utf8(name_bytes) {
                                        None
                                    } else if rest2.len() < 20 {
                                        None
                                    } else {
                                        let hash = hex_of_bytes(rest2.take(20));
                                        match spec_parse_tree(rest2.skip(20)) {
                                            None => None,
                                            Some(es) => Some(
                                                seq![
                                                    (
                                                        m as u32,
                                                        decode_utf8(name_bytes),
                                                        hash,
                                                    ),
                                                ] + es,
                                            ),
                                        }
                                    }
                                },
                            }
                        },
                    }
                }
            },
        }
    }
}

#[via_fn]
proof fn spec_parse_tree_decreases(d: Seq<u8>) {
    if d.len() != 0 {
        lemma_first_index_of_byte_props(d, 32u8);
        match first_index_of_byte(d, 32u8) {
            Some(sp) => {
                lemma_first_index_of_byte_props(d.skip(sp + 1), 0u8);
            },
            None => {},
        }
    }
}

impl Object {
    /// Parses a serialized tree into its entries, hashes re-encoded as forty
    /// lowercase hexadecimal digits.
    #[verifier::rlimit(100)]
    #[verifier::spinoff_prover]
    pub fn parse_tree(data: &[u8]) -> (r: Result<Object, VcsError>)
        ensures
            match r {
                Ok(o) => o matches Object::Tree(es) && spec_parse_tree(data@) == Some(
                    entries_view(es@),
                ),
                Err(e) => spec_parse_tree(data@) is None && e is DecodeError,
            },
    {
        let mut entries: Vec<TreeEntry> = Vec::new();
        let mut i: usize = 0;
        let len = data.len();
        proof {
            assert(data@.skip(0) =~= data@);
            assert(entries_view(entries@) =~= Seq::<EntryView>::empty());
        }
        while i < len
            invariant
                len == data@.len(),
                i <= len,
                match spec_parse_tree(data@.skip(i as int)) {
                    Some(rest) => spec_parse_tree(data@) == Some(entries_view(entries@) + rest),
                    None => spec_parse_tree(data@) is None,
                },
            decreases len - i,
        {
            let ghost rem = data@.skip(i as int);
            proof {
                lemma_first_index_of_byte_props(rem, 32u8);
            }
            let sp = match find_byte(data, i, 32u8) {
                Some(k) => k,
                None => {
                    proof {
                        if let Some(q) = first_index_of_byte(rem, 32u8) {
                            assert(rem[q] == data@[i + q]);
                        }
                    }
                    return Err(
                        VcsError::DecodeError(
                            "Invalid tree format: missing space after mode".to_owned(),
                        ),
                    );
                },
            };
            proof {
                assert forall|j: int| 0 <= j < rem.len() implies rem[j] == data@[i + j] by {}
                assert(rem[sp - i as int] == data@[sp as int]);
                match first_index_of_byte(rem, 32u8) {
                    Some(qi) => {
                        assert(rem[qi] == data@[i + qi]);
                    },
                    None => {},
                }
                assert(first_index_of_byte(rem, 32u8) == Some(sp - i as int));
                assert(rem.take(sp - i as int) =~= data@.subrange(i as int, sp as int));
            }
            let mode_vec = subrange_vec(data, i, sp);
            let mode_str = match string_from_utf8(mode_vec) {
                Some(s) => s,
                None => {
                    return Err(VcsError::DecodeError("Invalid mode encoding".to_owned()));
                },
            };
            let mode_chars = chars_of_str(mode_str.as_str());
            let mode64 = match parse_radix_chars(&mode_chars, 8) {
                Some(m) => m,
                None => {
                    return Err(VcsError::DecodeError("Invalid mode value".to_owned()));
                },
            };
            if mode64 > 0xffff_ffffu64 {
                return Err(VcsError::DecodeError("Invalid mode value".to_owned()));
            }
            let i2 = sp + 1;
            let ghost rest1 = rem.skip(sp - i as int + 1);
            proof {
                assert(rest1 =~= data@.skip(i2 as int));
                lemma_first_index_of_byte_props(rest1, 0u8);
            }
            let z = match find_byte(data, i2, 0u8) {
                Some(k) => k,
                None => {
                    proof {
                        if let Some(q) = first_index_of_byte(rest1, 0u8) {
                            assert(rest1[q] == data@[i2 + q]);
                        }
                    }
                    return Err(
                        VcsError::DecodeError(
                            "Invalid tree format: missing null byte after name".to_owned(),
                        ),
                    );
                },
            };
            proof {
                assert forall|j: int| 0 <= j < rest1.len() implies rest1[j] == data@[i2 + j] by {}
                assert(rest1[z - i2 as int] == data@[z as int]);
                match first_index_of_byte(rest1, 0u8) {
                    Some(qi) => {
                        assert(rest1[qi] == data@[i2 + qi]);
                    },
                    None => {},
                }
                assert(first_index_of_byte(rest1, 0u8) == Some(z - i2 as int));
                assert(rest1.take(z - i2 as int) =~= data@.subrange(i2 as int, z as int));
            }
            let name_vec = subrange_vec(data, i2, z);
            let name = match string_from_utf8(name_vec) {
                Some(s) => s,
                None => {
                    return Err(VcsError::DecodeError("Invalid name encoding".to_owned()));
                },
            };
            let i3 = z + 1;
            let ghost rest2 = rest1.skip(z - i2 as int + 1);
            proof {
                assert(rest2 =~= data@.skip(i3 as int));
            }
            if len - i3 < 20 {
                return Err(
                    VcsError::DecodeError("Invalid tree format: incomplete hash".to_owned()),
                );
            }
            let hash_vec = subrange_vec(data, i3, i3 + 20);
            proof {
                assert(rest2.take(20) =~= data@.subrange(i3 as int, i3 + 20));
            }
            let hash = hex_encode(&hash_vec);
            let ghost before = entries@;
            entries.push(TreeEntry { mode: mode64 as u32, name, hash });
            let ghost next_i = i3 + 20;
            proof {
                let ev = (mode64 as u32, decode_utf8(rest1.take(z - i2 as int)), hex_of_bytes(
                    rest2.take(20),
                ));
                assert(rest2.skip(20) =~= data@.skip(next_i as int));
                assert(spec_parse_tree(rem) == match spec_parse_tree(data@.skip(next_i as int)) {
                    None => None::<Seq<EntryView>>,
                    Some(es) => Some(seq![ev] + es),
                });
                assert(entries_view(entries@) =~= entries_view(before) + seq![ev]);
                if let Some(es) = spec_parse_tree(data@.skip(next_i as int)) {
                    assert(entries_view(before) + (seq![ev] + es) =~= entries_view(entries@)
                        + es);
                }
            }
            i = i3 + 20;
        }
        proof {
            assert(data@.skip(len as int) =~= Seq::<u8>::empty());
            assert(spec_parse_tree(data@.skip(len as int)) == Some(Seq::<EntryView>::empty()));
            assert(entries_view(entries@) + Seq::<EntryView>::empty() =~= entries_view(
                entries@,
            ));
        }
        Ok(Object::Tree(entries))
    }
}

/// A line with one trailing carriage return removed.
pub open spec fn strip_cr(l: Seq<char>) -> Seq<char> {
    if l.len() > 0 && l.last() == '\r' {
        l.drop_last()
    } else {
        l
    }
}

/// The lines of a text: segments between newlines, each stripped of one
/// trailing carriage return, with no empty final segment after a trailing
/// newline.
pub open spec fn split_lines(s: Seq<char>) -> Seq<Seq<char>>
    decreases s.len(),
    via split_lines_decreases
{
    if s.len() == 0 {
        Seq::<Seq<char>>::empty()
    } else {
        match first_index_of(s, '\n') {
            None => seq![strip_cr(s)],
            Some(i) => seq![strip_cr(s.take(i))] + split_lines(s.skip(i + 1)),
        }
    }
}

#[via_fn]
proof fn split_lines_decreases(s: Seq<char>) {
    if s.len() != 0 {
        lemma_first_index_of_props(s, '\n');
    }
}

/// The running state of the commit-header reader: tree hash, parents,
/// author, committer, message so far, and whether the blank line has passed.
pub type CState = (Seq<char>, Seq<Seq<char>>, Option<SigView>, Option<SigView>, Seq<char>, bool);

/// The state before any line is read.
pub open spec fn init_cstate() -> CState {
    (Seq::<char>::empty(), Seq::<Seq<char>>::empty(), None, None, Seq::<char>::empty(), false)
}

/// The view of an optional signature.
pub open spec fn opt_sig_view(o: Option<Signature>) -> Option<SigView> {
    match o {
        Some(s) => Some(sig_view(s)),
        None => None,
    }
}

/// One line's effect on the reader state: a blank line starts the message,
/// message lines accumulate joined by newlines, and header lines are split at
/// the first space into a keyword and a trimmed value.
pub open spec fn commit_step(line: Seq<char>, st: CState) -> Option<CState> {
    if line.len() == 0 {
        Some((st.0, st.1, st.2, st.3, st.4, true))
    } else if st.5 {
        Some(
            (
                st.0,
                st.1,
                st.2,
                st.3,
                if st.4.len() == 0 {
                    line
                } else {
                    st.4 + seq!['\n'] + line
                },
                true,
            ),
        )
    } else {
        match first_index_of(line, ' ') {
            None => None,
            Some(sp) => {
                let key = line.take(sp);
                let value = spec_trim(line.skip(sp));
                if key == kw_tree() {
                    Some((value, st.1, st.2, st.3, st.4, st.5))
                } else if key == kw_parent() {
                    Some((st.0, st.1.push(value), st.2, st.3, st.4, st.5))
                } else if key == kw_author() {
                    match spec_parse_signature(value) {
                        None => None,
                        Some(sv) => Some((st.0, st.1, Some(sv), st.3, st.4, st.5)),
                    }
                } else if key == kw_committer() {
                    match spec_parse_signature(value) {
                        None => None,
                        Some(sv) => Some((st.0, st.1, st.2, Some(sv), st.4, st.5)),
                    }
                } else {
                    None
                }
            },
        }
    }
}

/// The reader state after all lines, if every line was acceptable.
pub open spec fn commit_fold(lines: Seq<Seq<char>>, st: CState) -> Option<CState>
    decreases lines.len(),
{
    if lines.len() == 0 {
        Some(st)
    } else {
        match commit_step(lines.first(), st) {
            None => None,
            Some(st2) => commit_fold(lines.drop_first(), st2),
        }
    }
}

/// A parsed commit as a mathematical value: tree hash, parents, author,
/// committer, message.
pub type CommitView = (Seq<char>, Seq<Seq<char>>, SigView, SigView, Seq<char>);

/// What parsing a serialized commit yields: the folded header state when the
/// bytes are valid UTF-8, every line is acceptable, and both identities are
/// present.
pub open spec fn spec_parse_commit(d: Seq<u8>) -> Option<CommitView> {
    if !valid_utf8(d) {
        None
    } else {
        match commit_fold(split_lines(decode_utf8(d)), init_cstate()) {
            None => None,
            Some(st) => match (st.2, st.3) {
                (Some(a), Some(c)) => Some((st.0, st.1, a, c, st.4)),
                _ => None,
            },
        }
    }
}

impl Object {
    /// Parses a serialized commit: header lines in any order, a blank line,
    /// then the message; both identities must be present.
    #[verifier::rlimit(100)]
    #[verifier::spinoff_prover]
    pub fn parse_commit(data: &[u8]) -> (r: Result<Object, VcsError>)
        ensures
            match r {
                Ok(o) => o matches Object::Commit { tree, parents, author, committer, message }
                    && spec_parse_commit(data@) == Some(
                    (
                        tree@,
                        strings_view(parents@),
                        sig_view(author),
                        sig_view(committer),
                        message@,
                    ),
                ),
                Err(e) => spec_parse_commit(data@) is None && e is DecodeError,
            },
    {
        let bytes = vstd::slice::slice_to_vec(data);
        let content = match string_from_utf8(bytes) {
            Some(s) => s,
            None => {
                return Err(VcsError::DecodeError("Invalid commit encoding".to_owned()));
            },
        };
        let lines = split_lines_exec(content.as_str());
        let ghost all = strings_view(lines@);
        let mut tree = String::new();
        let mut parents: Vec<String> = Vec::new();
        let mut author: Option<Signature> = None;
        let mut committer: Option<Signature> = None;
        let mut message = String::new();
        let mut in_message = false;
        let nlines = lines.len();
        proof {
            assert(all.skip(0) =~= all);
            assert(strings_view(parents@) =~= Seq::<Seq<char>>::empty());
            assert((tree@, strings_view(parents@), opt_sig_view(author), opt_sig_view(committer),
                message@, in_message) == init_cstate());
        }
        for i in 0..nlines
            invariant
                nlines == lines@.len(),
                all == strings_view(lines@),
                valid_utf8(data@),
                all == split_lines(decode_utf8(data@)),
                commit_fold(all, init_cstate()) == commit_fold(
                    all.skip(i as int),
                    (
                        tree@,
                        strings_view(parents@),
                        opt_sig_view(author),
                        opt_sig_view(committer),
                        message@,
                        in_message,
                    ),
                ),
        {
            let ghost st = (
                tree@,
                strings_view(parents@),
                opt_sig_view(author),
                opt_sig_view(committer),
                message@,
                in_message,
            );
            let ghost rem_lines = all.skip(i as int);
            proof {
                assert(rem_lines.first() == all[i as int]);
                assert(all[i as int] == lines@[i as int]@);
                assert(rem_lines.drop_first() =~= all.skip(i + 1));
            }
            let line = &lines[i];
            let llen = line.as_str().unicode_len();
            if llen == 0 {
                in_message = true;
            } else if in_message {
                if message.as_str().unicode_len() == 0 {
                    message = line.clone();
                } else {
                    push_char(&mut message, '\n');
                    message.append(line.as_str());
                }
            } else {
                proof {
                    lemma_first_index_of_props(line@, ' ');
                }
                let sp = match find_char(line.as_str(), ' ') {
                    Some(k) => k,
                    None => {
                        proof {
                            assert(first_index_of(line@, ' ') is None);
                            assert(commit_step(rem_lines.first(), st) is None);
                            assert(commit_fold(rem_lines, st) is None);
                        }
                        return Err(VcsError::DecodeError("Invalid commit format".to_owned()));
                    },
                };
                proof {
                    assert(first_index_of(line@, ' ') == Some(sp as int));
                }
                let key = substring(line.as_str(), 0, sp);
                let value_raw = substring(line.as_str(), sp, llen);
                let value = trim(value_raw.as_str());
                proof {
                    assert(key@ =~= line@.take(sp as int));
                    assert(value_raw@ =~= line@.skip(sp as int));
                    reveal_strlit("tree");
                    assert("tree"@ =~= kw_tree());
                    reveal_strlit("parent");
                    assert("parent"@ =~= kw_parent());
                    reveal_strlit("author");
                    assert("author"@ =~= kw_author());
                    reveal_strlit("committer");
                    assert("committer"@ =~= kw_committer());
                }
                if str_eq(key.as_str(), "tree") {
                    tree = value;
                } else if str_eq(key.as_str(), "parent") {
                    let ghost pbefore = parents@;
                    parents.push(value);
                    proof {
                        assert(strings_view(parents@) =~= strings_view(pbefore).push(
                            spec_trim(line@.skip(sp as int)),
                        ));
                    }
                } else if str_eq(key.as_str(), "author") {
                    match Signature::parse(value.as_str()) {
                        Ok(sig) => {
                            author = Some(sig);
                        },
                        Err(e) => {
                            proof {
                                assert(commit_step(rem_lines.first(), st) is None);
                                assert(commit_fold(rem_lines, st) is None);
                            }
                            return Err(e);
                        },
                    }
                } else if str_eq(key.as_str(), "committer") {
                    match Signature::parse(value.as_str()) {
                        Ok(sig) => {
                            committer = Some(sig);
                        },
                        Err(e) => {
                            proof {
                                assert(commit_step(rem_lines.first(), st) is None);
                                assert(commit_fold(rem_lines, st) is None);
                            }
                            return Err(e);
                        },
                    }
                } else {
                    proof {
                        assert(commit_step(rem_lines.first(), st) is None);
                        assert(commit_fold(rem_lines, st) is None);
                    }
                    return Err(VcsError::DecodeError("Invalid commit header".to_owned()));
                }
            }
            proof {
                let st2 = (
                    tree@,
                    strings_view(parents@),
                    opt_sig_view(author),
                    opt_sig_view(committer),
                    message@,
                    in_message,
                );
                assert(commit_step(lines@[i as int]@, st) == Some(st2));
            }
        }
        proof {
            assert(all.skip(nlines as int) =~= Seq::<Seq<char>>::empty());
        }
        let a = match author {
            Some(a) => a,
            None => {
                return Err(VcsError::DecodeError("Missing author".to_owned()));
            },
        };
        let c = match committer {
            Some(c) => c,
            None => {
                return Err(VcsError::DecodeError("Missing committer".to_owned()));
            },
        };
        Ok(Object::Commit { tree, parents, author: a, committer: c, message })
    }

    /// Parses a payload according to its type name; unknown types are
    /// refused.
    pub fn parse(object_type: &str, data: &[u8]) -> (r: Result<Object, VcsError>)
        ensures
            object_type@ == seq!['b', 'l', 'o', 'b'] ==> (r matches Ok(o) && o matches Object::Blob(
                bs,
            ) && bs@ == data@),
            object_type@ == seq!['t', 'r', 'e', 'e'] ==> match r {
                Ok(o) => o matches Object::Tree(es) && spec_parse_tree(data@) == Some(
                    entries_view(es@),
                ),
                Err(e) => spec_parse_tree(data@) is None && e is DecodeError,
            },
            object_type@ == seq!['c', 'o', 'm', 'm', 'i', 't'] ==> match r {
                Ok(o) => o matches Object::Commit {
                    tree,
                    parents,
                    author,
                    committer,
                    message,
                } && spec_parse_commit(data@) == Some(
                    (
                        tree@,
                        strings_view(parents@),
                        sig_view(author),
                        sig_view(committer),
                        message@,
                    ),
                ),
                Err(e) => spec_parse_commit(data@) is None && e is DecodeError,
            },
            object_type@ != seq!['b', 'l', 'o', 'b'] && object_type@ != seq![
                't',
                'r',
                'e',
                'e',
            ] && object_type@ != seq!['c', 'o', 'm', 'm', 'i', 't'] ==> (r matches Err(e) && e
                is DecodeError),
    {
        proof {
            reveal_strlit("blob");
            assert("blob"@ =~= seq!['b', 'l', 'o', 'b']);
            reveal_strlit("tree");
            assert("tree"@ =~= seq!['t', 'r', 'e', 'e']);
            reveal_strlit("commit");
            assert("commit"@ =~= seq!['c', 'o', 'm', 'm', 'i', 't']);
        }
        if str_eq(object_type, "blob") {
            Ok(Object::Blob(vstd::slice::slice_to_vec(data)))
        } else if str_eq(object_type, "tree") {
            Object::parse_tree(data)
        } else if str_eq(object_type, "commit") {
            Object::parse_commit(data)
        } else {
            Err(VcsError::DecodeError("Unknown object type".to_owned()))
        }
    }
}

/// A line with one trailing carriage return removed.
fn strip_cr_exec(l: &str) -> (r: String)
    ensures
        r@ == strip_cr(l@),
{
    let len = l.unicode_len();
    if len > 0 && l.get_char(len - 1) == '\r' {
        let r = substring(l, 0, len - 1);
        assert(r@ =~= l@.drop_last());
        r
    } else {
        l.to_owned()
    }
}

/// The lines of a string, as `split_lines` describes them.
fn split_lines_exec(s: &str) -> (r: Vec<String>)
    ensures
        strings_view(r@) == split_lines(s@),
{
    let mut out: Vec<String> = Vec::new();
    let len = s.unicode_len();
    let mut pos: usize = 0;
    proof {
        assert(s@.skip(0) =~= s@);
        assert(strings_view(out@) =~= Seq::<Seq<char>>::empty());
    }
    while pos < len
        invariant
            len == s@.len(),
            pos <= len,
            split_lines(s@) == strings_view(out@) + split_lines(s@.skip(pos as int)),
        decreases len - pos,
    {
        let ghost rem = s@.skip(pos as int);
        let sub = substring(s, pos, len);
        proof {
            assert(sub@ =~= rem);
            lemma_first_index_of_props(rem, '\n');
        }
        let ghost before = out@;
        match find_char(sub.as_str(), '\n') {
            None => {
                proof {
                    if let Some(q) = first_index_of(rem, '\n') {
                        assert(rem[q] == sub@[q]);
                    }
                    assert(first_index_of(rem, '\n') is None);
                }
                let line = strip_cr_exec(sub.as_str());
                out.push(line);
                proof {
                    assert(split_lines(rem) =~= seq![strip_cr(rem)]);
                    assert(strings_view(out@) =~= strings_view(before) + seq![strip_cr(rem)]);
                    assert(s@.skip(len as int) =~= Seq::<char>::empty());
                    assert(split_lines(s@.skip(len as int)) =~= Seq::<Seq<char>>::empty());
                    assert(strings_view(before) + (seq![strip_cr(rem)]
                        + Seq::<Seq<char>>::empty()) =~= strings_view(out@)
                        + Seq::<Seq<char>>::empty());
                }
                pos = len;
            },
            Some(j) => {
                proof {
                    assert(first_index_of(rem, '\n') == Some(j as int));
                    assert(sub@.subrange(0, j as int) =~= rem.take(j as int));
                }
                let piece = substring(sub.as_str(), 0, j);
                let line = strip_cr_exec(piece.as_str());
                out.push(line);
                proof {
                    assert(rem.skip(j + 1) =~= s@.skip(pos + j + 1));
                    assert(split_lines(rem) =~= seq![strip_cr(rem.take(j as int))] + split_lines(
                        s@.skip(pos + j + 1),
                    ));
                    assert(strings_view(out@) =~= strings_view(before) + seq![
                        strip_cr(rem.take(j as int)),
                    ]);
                    assert(strings_view(before) + (seq![strip_cr(rem.take(j as int))]
                        + split_lines(s@.skip(pos + j + 1))) =~= strings_view(out@)
                        + split_lines(s@.skip(pos + j + 1)));
                }
                pos = pos + j + 1;
            },
        }
    }
    proof {
        assert(s@.skip(pos as int) =~= Seq::<char>::empty());
        assert(split_lines(s@.skip(pos as int)) =~= Seq::<Seq<char>>::empty());
        assert(strings_view(out@) + Seq::<Seq<char>>::empty() =~= strings_view(out@));
    }
    out
}

/// The identity law for blobs: a blob serializes to exactly its payload, so
/// parsing the serialization by type yields the payload back, and its hash is
/// a function of the payload alone — repeated hashing cannot differ.
pub proof fn lemma_blob_roundtrip(o: Object)
    requires
        o is Blob,
    ensures
        spec_serialize(o) == o->Blob_0@,
        object_hash(o) == spec_hash_raw(seq!['b', 'l', 'o', 'b'], o->Blob_0@),
{
}

/// Hashing a tree is deterministic: two trees whose entries agree in order,
/// names, modes and hashes serialize identically and hash identically.
pub proof fn lemma_tree_hash_deterministic(t1: Object, t2: Object)
    requires
        t1 is Tree,
        t2 is Tree,
        entries_view(t1->Tree_0@) == entries_view(t2->Tree_0@),
    ensures
        spec_serialize(t1) == spec_serialize(t2),
        object_hash(t1) == object_hash(t2),
{
}

impl TreeEntry {
    /// A field-for-field copy of the entry.
    pub fn duplicate(&self) -> (r: TreeEntry)
        ensures
            r == *self,
    {
        TreeEntry { mode: self.mode, name: self.name.clone(), hash: self.hash.clone() }
    }
}

/// The mode-and-name header of one tree entry, before the zero byte.
fn tree_entry_header(e: &TreeEntry) -> (r: String)
    ensures
        r@ == oct6(e.mode as nat) + seq![' '] + e.name@,
{
    let digits = radix_chars(e.mode as u64, 8);
    let mut s = String::new();
    let dlen = digits.len();
    if dlen < 6 {
        let pad = 6 - dlen;
        for k in 0..pad
            invariant
                pad == 6 - dlen,
                dlen == digits@.len(),
                s@ =~= Seq::new(k as nat, |i: int| '0'),
        {
            push_char(&mut s, '0');
            assert(s@ =~= Seq::new((k + 1) as nat, |i: int| '0'));
        }
    }
    let ds = string_of_chars(&digits);
    s.append(ds.as_str());
    push_char(&mut s, ' ');
    s.append(e.name.as_str());
    assert(s@ =~= oct6(e.mode as nat) + seq![' '] + e.name@);
    s
}

} // verus!
