//! The staging index: an ordered collection of tracked-file records keyed by
//! path, with its fixed-width big-endian binary format and the proof that the
//! format round-trips.

use vstd::prelude::*;
use crate::error::VcsError;
use crate::num::{
    be_bytes_u32, be_bytes_u64, lemma_be_u32_roundtrip, lemma_be_u64_roundtrip, push_be_u32,
    push_be_u64, read_be_u32, read_be_u64, u32_of_be, u64_of_be,
};
use crate::strutil::{
    find_byte, first_index_of_byte, lemma_first_index_of_byte_props, str_eq, string_from_utf8,
    subrange_vec,
};
use vstd::string::StrSliceExecFns;
use vstd::string::StringSliceAdditionalSpecFns;
use vstd::utf8::{
    char_u32_cast, decode_utf8, encode_scalar, encode_utf8, encode_utf8_decode_utf8,
    encode_utf8_valid_utf8, valid_utf8,
};

verus! {

/// One tracked file: its filesystem fingerprint, content hash, and path
/// relative to the repository root.
#[derive(Debug, Clone)]
pub struct IndexEntry {
    /// Change time, seconds.
    pub ctime: u64,
    /// Modification time, seconds.
    pub mtime: u64,
    /// Device number.
    pub dev: u32,
    /// Inode number.
    pub ino: u32,
    /// Mode (permission) bits.
    pub mode: u32,
    /// Owning user.
    pub uid: u32,
    /// Owning group.
    pub gid: u32,
    /// File size in bytes.
    pub size: u64,
    /// The content hash of the file, forty hexadecimal digits.
    pub hash: String,
    /// The repository-relative path.
    pub path: String,
}

impl IndexEntry {
    /// An entry from its recorded parts.
    pub fn new(
        path: String,
        hash: String,
        ctime: u64,
        mtime: u64,
        dev: u32,
        ino: u32,
        mode: u32,
        uid: u32,
        gid: u32,
        size: u64,
    ) -> (r: IndexEntry)
        ensures
            r == (IndexEntry { ctime, mtime, dev, ino, mode, uid, gid, size, hash, path }),
    {
        IndexEntry { ctime, mtime, dev, ino, mode, uid, gid, size, hash, path }
    }
}

/// An index entry as a mathematical value, fields in serialization order.
pub type IndexEntryView = (u64, u64, u32, u32, u32, u32, u32, u64, Seq<char>, Seq<char>);

/// The view of one entry.
pub open spec fn index_entry_view(e: IndexEntry) -> IndexEntryView {
    (e.ctime, e.mtime, e.dev, e.ino, e.mode, e.uid, e.gid, e.size, e.hash@, e.path@)
}

/// The views of a sequence of entries.
pub open spec fn index_views(es: Seq<IndexEntry>) -> Seq<IndexEntryView> {
    es.map_values(|e: IndexEntry| index_entry_view(e))
}

/// The serialization of one entry: eight big-endian numeric fields, then the
/// hash and path as zero-terminated UTF-8.
pub open spec fn spec_ser_index_entry(e: IndexEntry) -> Seq<u8> {
    be_bytes_u64(e.ctime) + be_bytes_u64(e.mtime) + be_bytes_u32(e.dev) + be_bytes_u32(e.ino)
        + be_bytes_u32(e.mode) + be_bytes_u32(e.uid) + be_bytes_u32(e.gid) + be_bytes_u64(e.size)
        + encode_utf8(e.hash@) + seq![0u8] + encode_utf8(e.path@) + seq![0u8]
}

/// The serializations of a sequence of entries, in order.
pub open spec fn spec_ser_entries(es: Seq<IndexEntry>) -> Seq<u8>
    decreases es.len(),
{
    if es.len() == 0 {
        Seq::<u8>::empty()
    } else {
        spec_ser_index_entry(es.first()) + spec_ser_entries(es.drop_first())
    }
}

/// The serialization of a whole index: a four-byte big-endian entry count,
/// then the entries.
pub open spec fn spec_ser_index(es: Seq<IndexEntry>) -> Seq<u8> {
    be_bytes_u32(es.len() as u32) + spec_ser_entries(es)
}

/// What parsing one entry from the front of `d` yields: the entry's view and
/// the remaining bytes, or nothing on truncation, a missing terminator, or
/// invalid UTF-8.
pub open spec fn spec_parse_one(d: Seq<u8>) -> Option<(IndexEntryView, Seq<u8>)> {
    if d.len() < 44 {
        None
    } else {
        let rest = d.skip(44);
        match first_index_of_byte(rest, 0u8) {
            None => None,
            Some(hz) => {
                let hb = rest.take(hz);
                if !valid_utf8(hb) {
                    None
                } else {
                    let rest2 = rest.skip(hz + 1);
                    match first_index_of_byte(rest2, 0u8) {
                        None => None,
                        Some(pz) => {
                            let pb = rest2.take(pz);
                            if !valid_utf8(pb) {
                                None
                            } else {
                                Some(
                                    (
                                        (
                                            u64_of_be(d.subrange(0, 8)),
                                            u64_of_be(d.subrange(8, 16)),
                                            u32_of_be(d.subrange(16, 20)),
                                            u32_of_be(d.subrange(20, 24)),
                                            u32_of_be(d.subrange(24, 28)),
                                            u32_of_be(d.subrange(28, 32)),
                                            u32_of_be(d.subrange(32, 36)),
                                            u64_of_be(d.subrange(36, 44)),
                                            decode_utf8(hb),
                                            decode_utf8(pb),
                                        ),
                                        rest2.skip(pz + 1),
                                    ),
                                )
                            }
                        },
                    }
                }
            },
        }
    }
}

/// What parsing `n` entries from the front of `d` yields: their views and
/// the bytes left over.
pub open spec fn spec_parse_entries(d: Seq<u8>, n: nat) -> Option<(Seq<IndexEntryView>, Seq<u8>)>
    decreases n,
{
    if n == 0 {
        Some((Seq::<IndexEntryView>::empty(), d))
    } else {
        match spec_parse_one(d) {
            None => None,
            Some(p) => match spec_parse_entries(p.1, (n - 1) as nat) {
                None => None,
                Some(q) => Some((seq![p.0] + q.0, q.1)),
            },
        }
    }
}

/// What loading an index from bytes yields: the views of as many entries as
/// the leading count declares; bytes after them are ignored.
pub open spec fn spec_load_index(d: Seq<u8>) -> Option<Seq<IndexEntryView>> {
    if d.len() < 4 {
        None
    } else {
        match spec_parse_entries(d.skip(4), u32_of_be(d.take(4)) as nat) {
            None => None,
            Some(p) => Some(p.0),
        }
    }
}

/// The entries of `es` whose path is not `p`, in order.
pub open spec fn without_path(es: Seq<IndexEntry>, p: Seq<char>) -> Seq<IndexEntry>
    decreases es.len(),
{
    if es.len() == 0 {
        Seq::<IndexEntry>::empty()
    } else {
        let rest = without_path(es.drop_last(), p);
        if es.last().path@ != p {
            rest.push(es.last())
        } else {
            rest
        }
    }
}

/// The staging area: tracked-file records, at most one per path.
#[derive(Debug)]
pub struct Index {
    entries: Vec<IndexEntry>,
}

impl Index {
    /// The entries as a mathematical sequence.
    pub closed spec fn view(&self) -> Seq<IndexEntry> {
        self.entries@
    }

    /// An empty index.
    pub fn new() -> (r: Index)
        ensures
            r@ == Seq::<IndexEntry>::empty(),
    {
        Index { entries: Vec::new() }
    }

    /// Adds an entry, replacing any entry with the same path; the new entry
    /// goes to the back.
    pub fn add_entry(&mut self, entry: IndexEntry)
        ensures
            final(self)@ == without_path(old(self)@, entry.path@).push(entry),
    {
        let mut kept: Vec<IndexEntry> = Vec::new();
        let n = self.entries.len();
        proof {
            assert(without_path(self.entries@.take(0), entry.path@)
                =~= Seq::<IndexEntry>::empty());
        }
        for i in 0..n
            invariant
                n == self.entries@.len(),
                kept@ =~= without_path(self.entries@.take(i as int), entry.path@),
        {
            let ghost prefix = self.entries@.take(i as int);
            let keep = !str_eq(self.entries[i].path.as_str(), entry.path.as_str());
            if keep {
                kept.push(self.entries[i].clone_entry());
            }
            proof {
                let next = self.entries@.take(i + 1);
                assert(next.drop_last() =~= prefix);
                assert(next.last() == self.entries@[i as int]);
                assert(kept@ =~= without_path(next, entry.path@));
            }
        }
        proof {
            assert(self.entries@.take(n as int) =~= self.entries@);
        }
        kept.push(entry);
        self.entries = kept;
    }

    /// The entry recorded for a path, if any: the first with that path, and
    /// there is at most one.
    pub fn get_entry(&self, path: &str) -> (r: Option<&IndexEntry>)
        ensures
            match r {
                Some(e) => exists|i: int|
                    0 <= i < self@.len() && self@[i] == *e && self@[i].path@ == path@,
                None => forall|i: int| 0 <= i < self@.len() ==> self@[i].path@ != path@,
            },
    {
        let n = self.entries.len();
        for i in 0..n
            invariant
                n == self.entries@.len(),
                forall|j: int| 0 <= j < i ==> self.entries@[j].path@ != path@,
        {
            if str_eq(self.entries[i].path.as_str(), path) {
                proof {
                    assert(self@[i as int] == self.entries@[i as int] && self@[i as int].path@
                        == path@);
                }
                return Some(&self.entries[i]);
            }
        }
        None
    }

    /// Whether any entry records this path.
    pub fn contains(&self, path: &str) -> (r: bool)
        ensures
            r == exists|i: int| 0 <= i < self@.len() && self@[i].path@ == path@,
    {
        let n = self.entries.len();
        for i in 0..n
            invariant
                n == self.entries@.len(),
                forall|j: int| 0 <= j < i ==> self.entries@[j].path@ != path@,
        {
            if str_eq(self.entries[i].path.as_str(), path) {
                proof {
                    assert(self@[i as int].path@ == path@);
                }
                return true;
            }
        }
        false
    }

    /// All entries, in order.
    pub fn entries(&self) -> (r: &Vec<IndexEntry>)
        ensures
            r@ == self@,
    {
        &self.entries
    }

    /// The binary serialization of the index.
    #[verifier::rlimit(100)]
    pub fn to_bytes(&self) -> (r: Vec<u8>)
        requires
            self@.len() <= u32::MAX,
        ensures
            r@ == spec_ser_index(self@),
    {
        let mut out: Vec<u8> = Vec::new();
        let n = self.entries.len();
        push_be_u32(&mut out, n as u32);
        let ghost total = spec_ser_index(self@);
        proof {
            assert(self.entries@.skip(0) =~= self.entries@);
            assert(out@ + spec_ser_entries(self.entries@.skip(0)) =~= total);
        }
        for i in 0..n
            invariant
                n == self.entries@.len(),
                total == spec_ser_index(self@),
                out@ + spec_ser_entries(self.entries@.skip(i as int)) =~= total,
        {
            let ghost before = out@;
            let e = &self.entries[i];
            push_be_u64(&mut out, e.ctime);
            push_be_u64(&mut out, e.mtime);
            push_be_u32(&mut out, e.dev);
            push_be_u32(&mut out, e.ino);
            push_be_u32(&mut out, e.mode);
            push_be_u32(&mut out, e.uid);
            push_be_u32(&mut out, e.gid);
            push_be_u64(&mut out, e.size);
            let mut hb = e.hash.as_str().as_bytes_vec();
            out.append(&mut hb);
            out.push(0u8);
            let mut pb = e.path.as_str().as_bytes_vec();
            out.append(&mut pb);
            out.push(0u8);
            proof {
                let rest = self.entries@.skip(i as int);
                assert(rest.first() == self.entries@[i as int]);
                assert(rest.drop_first() =~= self.entries@.skip(i + 1));
                assert(out@ =~= before + spec_ser_index_entry(self.entries@[i as int]));
                assert(spec_ser_entries(rest) =~= spec_ser_index_entry(rest.first())
                    + spec_ser_entries(self.entries@.skip(i + 1)));
                assert(out@ + spec_ser_entries(self.entries@.skip(i + 1)) =~= total);
            }
        }
        proof {
            assert(self.entries@.skip(n as int) =~= Seq::<IndexEntry>::empty());
            assert(out@ =~= total);
        }
        out
    }

    /// Loads an index from its binary serialization; trailing bytes after
    /// the counted entries are ignored, as a reader of the format would.
    #[verifier::rlimit(100)]
    pub fn load(bytes: &[u8]) -> (r: Result<Index, VcsError>)
        ensures
            match r {
                Ok(ix) => spec_load_index(bytes@) == Some(index_views(ix@)),
                Err(e) => spec_load_index(bytes@) is None && e is DecodeError,
            },
    {
        let blen = bytes.len();
        if blen < 4 {
            return Err(VcsError::DecodeError("Truncated index".to_owned()));
        }
        let count_vec = subrange_vec(bytes, 0, 4);
        let count = read_be_u32(&count_vec, 0);
        proof {
            assert(count_vec@.subrange(0, 4) =~= count_vec@);
            assert(count_vec@ =~= bytes@.take(4));
        }
        let mut entries: Vec<IndexEntry> = Vec::new();
        let mut pos: usize = 4;
        let mut i: u32 = 0;
        proof {
            assert(index_views(entries@) =~= Seq::<IndexEntryView>::empty());
        }
        while i < count
            invariant
                blen == bytes@.len(),
                4 <= pos <= blen,
                i <= count,
                count == u32_of_be(bytes@.take(4)),
                match spec_parse_entries(bytes@.skip(pos as int), (count - i) as nat) {
                    Some(p) => spec_parse_entries(bytes@.skip(4), count as nat) == Some(
                        (index_views(entries@) + p.0, p.1),
                    ),
                    None => spec_parse_entries(bytes@.skip(4), count as nat) is None,
                },
            decreases count - i,
        {
            let ghost rem = bytes@.skip(pos as int);
            if blen - pos < 44 {
                return Err(VcsError::DecodeError("Truncated index entry".to_owned()));
            }
            let ctime = read_be_u64(&subrange_vec(bytes, pos, pos + 8), 0);
            let mtime = read_be_u64(&subrange_vec(bytes, pos + 8, pos + 16), 0);
            let dev = read_be_u32(&subrange_vec(bytes, pos + 16, pos + 20), 0);
            let ino = read_be_u32(&subrange_vec(bytes, pos + 20, pos + 24), 0);
            let mode = read_be_u32(&subrange_vec(bytes, pos + 24, pos + 28), 0);
            let uid = read_be_u32(&subrange_vec(bytes, pos + 28, pos + 32), 0);
            let gid = read_be_u32(&subrange_vec(bytes, pos + 32, pos + 36), 0);
            let size = read_be_u64(&subrange_vec(bytes, pos + 36, pos + 44), 0);
            proof {
                assert forall|a: int, b: int|
                    pos <= a <= b <= blen implies bytes@.subrange(a, b) =~= rem.subrange(
                    a - pos,
                    b - pos,
                ) by {}
                assert(bytes@.subrange(pos as int, pos + 8).subrange(0, 8) =~= rem.subrange(
                    0,
                    8,
                ));
                assert(bytes@.subrange(pos + 8, pos + 16).subrange(0, 8) =~= rem.subrange(8, 16));
                assert(bytes@.subrange(pos + 16, pos + 20).subrange(0, 4) =~= rem.subrange(
                    16,
                    20,
                ));
                assert(bytes@.subrange(pos + 20, pos + 24).subrange(0, 4) =~= rem.subrange(
                    20,
                    24,
                ));
                assert(bytes@.subrange(pos + 24, pos + 28).subrange(0, 4) =~= rem.subrange(
                    24,
                    28,
                ));
                assert(bytes@.subrange(pos + 28, pos + 32).subrange(0, 4) =~= rem.subrange(
                    28,
                    32,
                ));
                assert(bytes@.subrange(pos + 32, pos + 36).subrange(0, 4) =~= rem.subrange(
                    32,
                    36,
                ));
                assert(bytes@.subrange(pos + 36, pos + 44).subrange(0, 8) =~= rem.subrange(
                    36,
                    44,
                ));
                lemma_first_index_of_byte_props(rem.skip(44), 0u8);
            }
            let hz = match find_byte(bytes, pos + 44, 0u8) {
                Some(k) => k,
                None => {
                    proof {
                        if let Some(q) = first_index_of_byte(rem.skip(44), 0u8) {
                            assert(rem.skip(44)[q] == bytes@[pos + 44 + q]);
                        }
                    }
                    return Err(VcsError::DecodeError("Unterminated hash".to_owned()));
                },
            };
            proof {
                assert forall|j: int|
                    0 <= j < rem.skip(44).len() implies rem.skip(44)[j] == bytes@[pos + 44
                    + j] by {}
                assert(rem.skip(44)[hz - pos - 44] == bytes@[hz as int]);
                match first_index_of_byte(rem.skip(44), 0u8) {
                    Some(qi) => {
                        assert(rem.skip(44)[qi] == bytes@[pos + 44 + qi]);
                    },
                    None => {},
                }
                assert(first_index_of_byte(rem.skip(44), 0u8) == Some(hz - pos - 44));
                assert(rem.skip(44).take(hz - pos - 44) =~= bytes@.subrange(pos + 44, hz as int));
            }
            let hash = match string_from_utf8(subrange_vec(bytes, pos + 44, hz)) {
                Some(s) => s,
                None => {
                    return Err(VcsError::DecodeError("Invalid hash encoding".to_owned()));
                },
            };
            let p2 = hz + 1;
            let ghost rest2 = rem.skip(44).skip(hz - pos as int - 44 + 1);
            proof {
                assert(rest2 =~= bytes@.skip(p2 as int));
                lemma_first_index_of_byte_props(rest2, 0u8);
            }
            let pz = match find_byte(bytes, p2, 0u8) {
                Some(k) => k,
                None => {
                    proof {
                        if let Some(q) = first_index_of_byte(rest2, 0u8) {
                            assert(rest2[q] == bytes@[p2 + q]);
                        }
                    }
                    return Err(VcsError::DecodeError("Unterminated path".to_owned()));
                },
            };
            proof {
                assert forall|j: int| 0 <= j < rest2.len() implies rest2[j] == bytes@[p2
                    + j] by {}
                assert(rest2[pz - p2] == bytes@[pz as int]);
                match first_index_of_byte(rest2, 0u8) {
                    Some(qi) => {
                        assert(rest2[qi] == bytes@[p2 + qi]);
                    },
                    None => {},
                }
                assert(first_index_of_byte(rest2, 0u8) == Some(pz - p2 as int));
                assert(rest2.take(pz - p2 as int) =~= bytes@.subrange(p2 as int, pz as int));
            }
            let path = match string_from_utf8(subrange_vec(bytes, p2, pz)) {
                Some(s) => s,
                None => {
                    return Err(VcsError::DecodeError("Invalid path encoding".to_owned()));
                },
            };
            let ghost before = entries@;
            entries.push(
                IndexEntry { ctime, mtime, dev, ino, mode, uid, gid, size, hash, path },
            );
            let new_pos = pz + 1;
            proof {
                let ev = spec_parse_one(rem).unwrap().0;
                assert(rest2.skip(pz - p2 as int + 1) =~= bytes@.skip(new_pos as int));
                assert(spec_parse_one(rem) == Some(
                    (ev, bytes@.skip(new_pos as int)),
                ));
                assert(ev == index_entry_view(entries@.last()));
                assert(index_views(entries@) =~= index_views(before) + seq![ev]);
                assert(spec_parse_entries(rem, (count - i) as nat) == match spec_parse_entries(
                    bytes@.skip(new_pos as int),
                    (count - i - 1) as nat,
                ) {
                    None => None::<(Seq<IndexEntryView>, Seq<u8>)>,
                    Some(q) => Some((seq![ev] + q.0, q.1)),
                });
                if let Some(q) = spec_parse_entries(
                    bytes@.skip(new_pos as int),
                    (count - i - 1) as nat,
                ) {
                    assert(index_views(before) + (seq![ev] + q.0) =~= index_views(entries@)
                        + q.0);
                }
            }
            pos = new_pos;
            i = i + 1;
        }
        proof {
            assert(spec_parse_entries(bytes@.skip(pos as int), 0) == Some(
                (Seq::<IndexEntryView>::empty(), bytes@.skip(pos as int)),
            ));
            assert(index_views(entries@) + Seq::<IndexEntryView>::empty() =~= index_views(
                entries@,
            ));
        }
        Ok(Index { entries })
    }
}

/// The UTF-8 encoding of a text without NUL characters contains no zero
/// byte.
proof fn lemma_encode_utf8_no_zero(s: Seq<char>)
    requires
        !s.contains('\0'),
    ensures
        forall|j: int| 0 <= j < encode_utf8(s).len() ==> encode_utf8(s)[j] != 0,
    decreases s.len(),
{
    if s.len() > 0 {
        let c = s[0];
        assert(c != '\0');
        let v = c as u32;
        if v == 0 {
            char_u32_cast(c, v);
            char_u32_cast('\0', 0u32);
            assert(c == '\0');
        }
        let e = encode_scalar(v);
        assert(forall|j: int| 0 <= j < e.len() ==> e[j] != 0) by {
            if vstd::utf8::has_width_1_encoding(v) {
                let b = vstd::utf8::leading_byte_width_1(v);
                assert(b != 0) by (bit_vector)
                    requires
                        b == (v & 0x7F) as u8,
                        v != 0,
                        v <= 0x7F,
                ;
            } else {
                let b1 = e[0];
                assert(forall|j: int| 0 <= j < e.len() ==> e[j] != 0) by {
                    assert forall|j: int| 0 <= j < e.len() implies e[j] != 0 by {
                        let b = e[j];
                        if j == 0 {
                            assert(b == vstd::utf8::leading_byte_width_2(v) || b
                                == vstd::utf8::leading_byte_width_3(v) || b
                                == vstd::utf8::leading_byte_width_4(v));
                            let l2 = vstd::utf8::leading_byte_width_2(v);
                            let l3 = vstd::utf8::leading_byte_width_3(v);
                            let l4 = vstd::utf8::leading_byte_width_4(v);
                            assert(l2 != 0) by (bit_vector)
                                requires
                                    l2 == 0xC0 | ((v >> 6) & 0x1F) as u8,
                            ;
                            assert(l3 != 0) by (bit_vector)
                                requires
                                    l3 == 0xE0 | ((v >> 12) & 0x0F) as u8,
                            ;
                            assert(l4 != 0) by (bit_vector)
                                requires
                                    l4 == 0xF0 | ((v >> 18) & 0x7) as u8,
                            ;
                        } else {
                            assert(b == vstd::utf8::last_continuation_byte(v) || b
                                == vstd::utf8::second_last_continuation_byte(v) || b
                                == vstd::utf8::third_last_continuation_byte(v));
                            let c1 = vstd::utf8::last_continuation_byte(v);
                            let c2 = vstd::utf8::second_last_continuation_byte(v);
                            let c3 = vstd::utf8::third_last_continuation_byte(v);
                            assert(c1 != 0) by (bit_vector)
                                requires
                                    c1 == 0x80 | (v & 0x3F) as u8,
                            ;
                            assert(c2 != 0) by (bit_vector)
                                requires
                                    c2 == 0x80 | ((v >> 6) & 0x3F) as u8,
                            ;
                            assert(c3 != 0) by (bit_vector)
                                requires
                                    c3 == 0x80 | ((v >> 12) & 0x3F) as u8,
                            ;
                        }
                    }
                }
            }
        }
        assert(!s.drop_first().contains('\0')) by {
            if s.drop_first().contains('\0') {
                let i = choose|i: int|
                    0 <= i < s.drop_first().len() && s.drop_first()[i] == '\0';
                assert(s[i + 1] == '\0');
            }
        }
        lemma_encode_utf8_no_zero(s.drop_first());
        assert forall|j: int| 0 <= j < encode_utf8(s).len() implies encode_utf8(s)[j] != 0 by {
            if j < e.len() {
                assert(encode_utf8(s)[j] == e[j]);
            } else {
                assert(encode_utf8(s)[j] == encode_utf8(s.drop_first())[j - e.len()]);
            }
        }
    }
}

/// In bytes shaped `a ++ 0 ++ tail` where `a` has no zero byte, the first
/// zero byte sits right after `a`.
proof fn lemma_first_zero_after(a: Seq<u8>, tail: Seq<u8>)
    requires
        forall|j: int| 0 <= j < a.len() ==> a[j] != 0,
    ensures
        first_index_of_byte(a + seq![0u8] + tail, 0u8) == Some(a.len() as int),
    decreases a.len(),
{
    let s = a + seq![0u8] + tail;
    if a.len() == 0 {
        assert(s.first() == 0u8);
    } else {
        assert(s.first() == a[0]);
        assert(s.first() != 0u8);
        assert(s.drop_first() =~= a.drop_first() + seq![0u8] + tail);
        assert forall|j: int| 0 <= j < a.drop_first().len() implies a.drop_first()[j] != 0 by {
            assert(a.drop_first()[j] == a[j + 1]);
        }
        lemma_first_zero_after(a.drop_first(), tail);
    }
}

/// Parsing one entry back from its serialization (plus anything after it)
/// yields the entry and the trailing bytes, provided its strings hold no NUL
/// character.
#[verifier::rlimit(100)]
proof fn lemma_parse_one_of_ser(e: IndexEntry, tail: Seq<u8>)
    requires
        !e.hash@.contains('\0'),
        !e.path@.contains('\0'),
    ensures
        spec_parse_one(spec_ser_index_entry(e) + tail) == Some((index_entry_view(e), tail)),
{
    let d = spec_ser_index_entry(e) + tail;
    let eh = encode_utf8(e.hash@);
    let ep = encode_utf8(e.path@);
    assert(d.subrange(0, 8) =~= be_bytes_u64(e.ctime));
    assert(d.subrange(8, 16) =~= be_bytes_u64(e.mtime));
    assert(d.subrange(16, 20) =~= be_bytes_u32(e.dev));
    assert(d.subrange(20, 24) =~= be_bytes_u32(e.ino));
    assert(d.subrange(24, 28) =~= be_bytes_u32(e.mode));
    assert(d.subrange(28, 32) =~= be_bytes_u32(e.uid));
    assert(d.subrange(32, 36) =~= be_bytes_u32(e.gid));
    assert(d.subrange(36, 44) =~= be_bytes_u64(e.size));
    lemma_be_u64_roundtrip(e.ctime);
    lemma_be_u64_roundtrip(e.mtime);
    lemma_be_u32_roundtrip(e.dev);
    lemma_be_u32_roundtrip(e.ino);
    lemma_be_u32_roundtrip(e.mode);
    lemma_be_u32_roundtrip(e.uid);
    lemma_be_u32_roundtrip(e.gid);
    lemma_be_u64_roundtrip(e.size);
    let rest = d.skip(44);
    assert(rest =~= eh + seq![0u8] + (ep + seq![0u8] + tail));
    lemma_encode_utf8_no_zero(e.hash@);
    lemma_first_zero_after(eh, ep + seq![0u8] + tail);
    assert(first_index_of_byte(rest, 0u8) == Some(eh.len() as int));
    assert(rest.take(eh.len() as int) =~= eh);
    encode_utf8_valid_utf8(e.hash@);
    encode_utf8_decode_utf8(e.hash@);
    let rest2 = rest.skip(eh.len() as int + 1);
    assert(rest2 =~= ep + seq![0u8] + tail);
    lemma_encode_utf8_no_zero(e.path@);
    lemma_first_zero_after(ep, tail);
    assert(first_index_of_byte(rest2, 0u8) == Some(ep.len() as int));
    assert(rest2.take(ep.len() as int) =~= ep);
    encode_utf8_valid_utf8(e.path@);
    encode_utf8_decode_utf8(e.path@);
    assert(rest2.skip(ep.len() as int + 1) =~= tail);
}

/// Whether every entry's hash and path are free of NUL characters, so the
/// zero-terminated format can hold them.
pub open spec fn wf_index_strings(es: Seq<IndexEntry>) -> bool {
    forall|i: int|
        0 <= i < es.len() ==> !(#[trigger] es[i]).hash@.contains('\0')
            && !es[i].path@.contains('\0')
}

/// Parsing back a serialized run of entries (plus anything after it) yields
/// the entries and the trailing bytes.
#[verifier::rlimit(100)]
proof fn lemma_parse_entries_of_ser(es: Seq<IndexEntry>, tail: Seq<u8>)
    requires
        wf_index_strings(es),
    ensures
        spec_parse_entries(spec_ser_entries(es) + tail, es.len()) == Some(
            (index_views(es), tail),
        ),
    decreases es.len(),
{
    if es.len() == 0 {
        assert(spec_ser_entries(es) + tail =~= tail);
        assert(index_views(es) =~= Seq::<IndexEntryView>::empty());
    } else {
        let d = spec_ser_entries(es) + tail;
        let tail2 = spec_ser_entries(es.drop_first()) + tail;
        assert(d =~= spec_ser_index_entry(es.first()) + tail2);
        lemma_parse_one_of_ser(es.first(), tail2);
        assert forall|i: int|
            0 <= i < es.drop_first().len() implies !(#[trigger] es.drop_first()[i]).hash@.contains(
            '\0',
        ) && !es.drop_first()[i].path@.contains('\0') by {
            assert(es.drop_first()[i] == es[i + 1]);
        }
        lemma_parse_entries_of_ser(es.drop_first(), tail);
        assert(seq![index_entry_view(es.first())] + index_views(es.drop_first())
            =~= index_views(es));
    }
}

/// The serialization round trip: loading a serialized index yields every
/// entry back, all ten fields intact.
pub proof fn lemma_index_roundtrip(es: Seq<IndexEntry>)
    requires
        es.len() <= u32::MAX,
        wf_index_strings(es),
    ensures
        spec_load_index(spec_ser_index(es)) == Some(index_views(es)),
{
    let d = spec_ser_index(es);
    assert(d.take(4) =~= be_bytes_u32(es.len() as u32));
    lemma_be_u32_roundtrip(es.len() as u32);
    assert(d.skip(4) =~= spec_ser_entries(es) + Seq::<u8>::empty());
    lemma_parse_entries_of_ser(es, Seq::<u8>::empty());
}

impl IndexEntry {
    /// A field-for-field copy of the entry.
    pub fn clone_entry(&self) -> (r: IndexEntry)
        ensures
            r == *self,
    {
        IndexEntry {
            ctime: self.ctime,
            mtime: self.mtime,
            dev: self.dev,
            ino: self.ino,
            mode: self.mode,
            uid: self.uid,
            gid: self.gid,
            size: self.size,
            hash: self.hash.clone(),
            path: self.path.clone(),
        }
    }
}

} // verus!
