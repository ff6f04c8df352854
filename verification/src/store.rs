//! The object store: zlib compression of stored objects (relied on from the
//! `flate2` crate), the on-disk object-file codec, and a content-addressed
//! map of objects whose writes are idempotent.

use vstd::prelude::*;
use flate2::read::ZlibDecoder;
use flate2::write::ZlibEncoder;
use flate2::Compression;
use std::io::{Read, Write};
use crate::error::VcsError;
use crate::hash::{create_object_header, object_header};
use crate::object::{
    entries_view, object_hash, sig_view, spec_parse_commit, spec_parse_tree, spec_serialize,
    strings_view, type_chars, Object,
};
use crate::strutil::{
    chars_of_str, find_byte, find_char, first_index_of, first_index_of_byte,
    lemma_first_index_of_byte_props, lemma_first_index_of_props, spec_trim, string_from_utf8,
    subrange_vec, substring, trim,
};
use crate::num::{parse_radix_chars, spec_parse_radix_u64};
use vstd::string::StrSliceExecFns;
use vstd::utf8::{decode_utf8, valid_utf8};

verus! {

/// What inflating a zlib stream yields, named but not defined: it depends on
/// the bytes alone, and the `flate2` crate computes it; a malformed stream
/// yields nothing.
pub uninterp spec fn zlib_inflate(data: Seq<u8>) -> Option<Seq<u8>>;

/// Relies on flate2's ZlibEncoder: the output is a zlib stream that inflates
/// back to exactly the input. Writing into a memory buffer cannot fail.
#[verifier::external_body]
fn zlib_compress(data: &[u8]) -> (r: Vec<u8>)
    ensures
        zlib_inflate(r@) == Some(data@),
{
    let mut encoder = ZlibEncoder::new(Vec::new(), Compression::default());
    encoder.write_all(data).expect("writing to a Vec cannot fail");
    encoder.finish().expect("writing to a Vec cannot fail")
}

/// Relies on flate2's ZlibDecoder: inflation is a function of the input
/// bytes alone, and a malformed stream is reported rather than returned.
#[verifier::external_body]
fn zlib_decompress(data: &[u8]) -> (r: Option<Vec<u8>>)
    ensures
        match r {
            Some(v) => zlib_inflate(data@) == Some(v@),
            None => zlib_inflate(data@) is None,
        },
{
    let mut decoder = ZlibDecoder::new(data);
    let mut out = Vec::new();
    match decoder.read_to_end(&mut out) {
        Ok(_) => Some(out),
        Err(_) => None,
    }
}

/// The bytes a stored object file inflates to: the typed header, a zero
/// byte, then the serialized payload.
pub open spec fn stored_bytes(o: Object) -> Seq<u8> {
    object_header(type_chars(o), spec_serialize(o).len()) + spec_serialize(o)
}

impl Object {
    /// The object's serialization, zlib-compressed without a header.
    pub fn compress(&self) -> (r: Vec<u8>)
        ensures
            zlib_inflate(r@) == Some(spec_serialize(*self)),
    {
        let content = self.serialize();
        zlib_compress(content.as_slice())
    }
}

/// Encodes an object as it is stored on disk: header plus payload, deflated.
pub fn encode_object_file(o: &Object) -> (r: Vec<u8>)
    ensures
        zlib_inflate(r@) == Some(stored_bytes(*o)),
{
    let content = o.serialize();
    let mut bytes = create_object_header(o.type_str(), content.len());
    bytes.extend_from_slice(content.as_slice());
    assert(bytes@ =~= stored_bytes(*o));
    zlib_compress(bytes.as_slice())
}

/// What a stored object file's envelope holds: the type name and the payload
/// bytes, provided the stream inflates, the header is well formed, and the
/// declared length matches the payload.
pub open spec fn spec_stored_envelope(d: Seq<u8>) -> Option<(Seq<char>, Seq<u8>)> {
    match zlib_inflate(d) {
        None => None,
        Some(c) => match first_index_of_byte(c, 0u8) {
            None => None,
            Some(z) => {
                let hb = c.take(z);
                if !valid_utf8(hb) {
                    None
                } else {
                    let h = decode_utf8(hb);
                    match first_index_of(h, ' ') {
                        None => None,
                        Some(sp) => {
                            let t = h.take(sp);
                            let sz = spec_trim(h.skip(sp));
                            match spec_parse_radix_u64(10, sz) {
                                None => None,
                                Some(size) => if size > usize::MAX {
                                    None
                                } else {
                                    let payload = c.skip(z + 1);
                                    if payload.len() != size {
                                        None
                                    } else {
                                        Some((t, payload))
                                    }
                                },
                            }
                        },
                    }
                }
            },
        },
    }
}

/// Opens a stored object file into its type name and payload bytes.
pub fn decode_stored(data: &[u8]) -> (r: Result<(String, Vec<u8>), VcsError>)
    ensures
        match r {
            Ok(p) => spec_stored_envelope(data@) == Some((p.0@, p.1@)),
            Err(e) => spec_stored_envelope(data@) is None && e is CorruptObject,
        },
{
    let content = match zlib_decompress(data) {
        Some(v) => v,
        None => {
            return Err(VcsError::CorruptObject("Invalid object data".to_owned()));
        },
    };
    proof {
        lemma_first_index_of_byte_props(content@, 0u8);
    }
    let z = match find_byte(content.as_slice(), 0, 0u8) {
        Some(k) => k,
        None => {
            proof {
                if let Some(q) = first_index_of_byte(content@, 0u8) {
                    assert(content@[q] == content@[q]);
                }
            }
            return Err(VcsError::CorruptObject("Invalid object format".to_owned()));
        },
    };
    proof {
        match first_index_of_byte(content@, 0u8) {
            Some(qi) => {
                assert(content@[qi] == content@[qi]);
            },
            None => {},
        }
        assert(first_index_of_byte(content@, 0u8) == Some(z as int));
        assert(content@.take(z as int) =~= content@.subrange(0, z as int));
    }
    let header_vec = subrange_vec(content.as_slice(), 0, z);
    let header = match string_from_utf8(header_vec) {
        Some(s) => s,
        None => {
            return Err(VcsError::CorruptObject("Invalid header encoding".to_owned()));
        },
    };
    proof {
        lemma_first_index_of_props(header@, ' ');
    }
    let hlen = header.as_str().unicode_len();
    let sp = match find_char(header.as_str(), ' ') {
        Some(k) => k,
        None => {
            return Err(VcsError::CorruptObject("Invalid header format".to_owned()));
        },
    };
    proof {
        assert(first_index_of(header@, ' ') == Some(sp as int));
    }
    let obj_type = substring(header.as_str(), 0, sp);
    let size_raw = substring(header.as_str(), sp, hlen);
    let size_str = trim(size_raw.as_str());
    let size_chars = chars_of_str(size_str.as_str());
    let size64 = match parse_radix_chars(&size_chars, 10) {
        Some(v) => v,
        None => {
            return Err(VcsError::CorruptObject("Invalid size".to_owned()));
        },
    };
    proof {
        assert(obj_type@ =~= header@.take(sp as int));
        assert(size_raw@ =~= header@.skip(sp as int));
    }
    if size64 > usize::MAX as u64 {
        return Err(VcsError::CorruptObject("Invalid size".to_owned()));
    }
    let size = size64 as usize;
    let clen = content.len();
    let payload = subrange_vec(content.as_slice(), z + 1, clen);
    proof {
        assert(payload@ =~= content@.skip(z + 1));
    }
    if payload.len() != size {
        return Err(VcsError::CorruptObject("Content size mismatch".to_owned()));
    }
    Ok((obj_type, payload))
}

/// Decodes a stored object file into the object it holds.
pub fn decode_object_file(data: &[u8]) -> (r: Result<Object, VcsError>)
    ensures
        match r {
            Ok(o) => spec_stored_envelope(data@) matches Some(env) && env.0 == type_chars(o)
                && match o {
                Object::Blob(bs) => bs@ == env.1,
                Object::Tree(es) => spec_parse_tree(env.1) == Some(entries_view(es@)),
                Object::Commit { tree, parents, author, committer, message } => spec_parse_commit(
                    env.1,
                ) == Some(
                    (
                        tree@,
                        strings_view(parents@),
                        sig_view(author),
                        sig_view(committer),
                        message@,
                    ),
                ),
            },
            Err(e) => match spec_stored_envelope(data@) {
                None => e is CorruptObject,
                Some(env) => e is DecodeError && env.0 != seq!['b', 'l', 'o', 'b'] && (env.0
                    == seq!['t', 'r', 'e', 'e'] ==> spec_parse_tree(env.1) is None) && (env.0
                    == seq!['c', 'o', 'm', 'm', 'i', 't'] ==> spec_parse_commit(env.1) is None),
            },
        },
{
    let (obj_type, payload) = match decode_stored(data) {
        Ok(p) => p,
        Err(e) => {
            return Err(e);
        },
    };
    Object::parse(obj_type.as_str(), payload.as_slice())
}

/// A content-addressed object map: each object sits under its hash, and
/// writing an object whose hash is already present changes nothing.
pub struct ObjectStore {
    objects: Vec<(String, Object)>,
}

/// The map held by a sequence of hash-object pairs, later pairs winning.
pub open spec fn obj_pairs_map(ps: Seq<(String, Object)>) -> Map<Seq<char>, Object>
    decreases ps.len(),
{
    if ps.len() == 0 {
        Map::<Seq<char>, Object>::empty()
    } else {
        obj_pairs_map(ps.drop_last()).insert(ps.last().0@, ps.last().1)
    }
}

/// Key membership and lookup in the map of a pair sequence with distinct
/// keys.
proof fn lemma_obj_pairs_map(ps: Seq<(String, Object)>)
    requires
        forall|i: int, j: int| 0 <= i < j < ps.len() ==> ps[i].0@ != ps[j].0@,
    ensures
        forall|k: Seq<char>|
            #[trigger] obj_pairs_map(ps).contains_key(k) <==> exists|i: int|
                0 <= i < ps.len() && ps[i].0@ == k,
        forall|i: int|
            0 <= i < ps.len() ==> obj_pairs_map(ps).contains_key(#[trigger] ps[i].0@)
                && obj_pairs_map(ps)[ps[i].0@] == ps[i].1,
    decreases ps.len(),
{
    if ps.len() > 0 {
        lemma_obj_pairs_map(ps.drop_last());
        assert forall|i: int| 0 <= i < ps.len() implies obj_pairs_map(ps).contains_key(
            #[trigger] ps[i].0@,
        ) && obj_pairs_map(ps)[ps[i].0@] == ps[i].1 by {
            if i < ps.len() - 1 {
                assert(ps.drop_last()[i] == ps[i]);
                assert(ps[i].0@ != ps.last().0@);
            }
        }
        assert forall|k: Seq<char>| #[trigger]
            obj_pairs_map(ps).contains_key(k) implies exists|i: int|
            0 <= i < ps.len() && ps[i].0@ == k by {
            if k != ps.last().0@ {
                assert(obj_pairs_map(ps.drop_last()).contains_key(k));
                let i = choose|i: int|
                    0 <= i < ps.drop_last().len() && ps.drop_last()[i].0@ == k;
                assert(ps.drop_last()[i] == ps[i]);
                assert(ps[i].0@ == k);
            } else {
                assert(ps[ps.len() - 1].0@ == k);
            }
        }
        assert forall|k: Seq<char>|
            (exists|i: int| 0 <= i < ps.len() && ps[i].0@ == k) implies #[trigger]
            obj_pairs_map(ps).contains_key(k) by {
            let i = choose|i: int| 0 <= i < ps.len() && ps[i].0@ == k;
            if i < ps.len() - 1 {
                assert(ps.drop_last()[i].0@ == k);
            }
        }
    }
}

impl ObjectStore {
    /// The objects by hash.
    pub closed spec fn as_map(&self) -> Map<Seq<char>, Object> {
        obj_pairs_map(self.objects@)
    }

    /// Well-formedness: hashes are distinct and each pair's key is the hash
    /// of its object.
    pub closed spec fn wf(&self) -> bool {
        (forall|i: int, j: int|
            0 <= i < j < self.objects@.len() ==> self.objects@[i].0@ != self.objects@[j].0@)
            && (forall|i: int|
            0 <= i < self.objects@.len() ==> #[trigger] self.objects@[i].0@ == object_hash(
                self.objects@[i].1,
            ))
    }

    /// An empty store.
    pub fn new() -> (r: ObjectStore)
        ensures
            r.wf(),
            r.as_map() == Map::<Seq<char>, Object>::empty(),
            r.object_count() == 0,
            r.key_seq() == Seq::<Seq<char>>::empty(),
    {
        let r = ObjectStore { objects: Vec::new() };
        proof {
            assert(r.key_seq() =~= Seq::<Seq<char>>::empty());
        }
        r
    }

    /// How many objects the store holds.
    pub closed spec fn object_count(&self) -> nat {
        self.objects@.len()
    }

    /// The stored hashes, in insertion order.
    pub closed spec fn key_seq(&self) -> Seq<Seq<char>> {
        self.objects@.map_values(|p: (String, Object)| p.0@)
    }

    /// How many objects the store holds.
    pub fn count(&self) -> (r: usize)
        ensures
            r == self.object_count(),
    {
        self.objects.len()
    }

    /// Stores an object under its hash and returns the hash; a hash already
    /// present leaves the store exactly as it was.
    pub fn put(&mut self, o: Object) -> (hash: String)
        requires
            old(self).wf(),
        ensures
            final(self).wf(),
            hash@ == object_hash(o),
            hash@.len() == 40,
            old(self).as_map().contains_key(object_hash(o)) ==> *final(self) == *old(self),
            !old(self).as_map().contains_key(object_hash(o)) ==> final(self).as_map()
                == old(self).as_map().insert(object_hash(o), o) && final(self).object_count()
                == old(self).object_count() + 1 && final(self).key_seq() == old(
                self,
            ).key_seq().push(object_hash(o)),
    {
        let h = o.hash();
        let n = self.objects.len();
        for i in 0..n
            invariant
                n == self.objects@.len(),
                *self == *old(self),
                self.wf(),
                h@ == object_hash(o),
                h@.len() == 40,
                forall|j: int| 0 <= j < i ==> self.objects@[j].0@ != h@,
        {
            if self.objects[i].0 == h {
                proof {
                    assert(self.objects@[i as int].0@ == h@);
                    lemma_obj_pairs_map(self.objects@);
                }
                return h;
            }
        }
        let ghost before = self.objects@;
        self.objects.push((h.clone(), o));
        proof {
            assert(self.key_seq() =~= before.map_values(|p: (String, Object)| p.0@).push(h@));
            assert(self.objects@.drop_last() =~= before);
            assert(self.objects@.last() == (h, o));
            lemma_obj_pairs_map(before);
            if old(self).as_map().contains_key(object_hash(o)) {
                let i = choose|i: int| 0 <= i < before.len() && before[i].0@ == object_hash(o);
                assert(false);
            }
        }
        h
    }

    /// The hashes of every stored object: all of them, in insertion order.
    pub fn hashes(&self) -> (r: Vec<String>)
        requires
            self.wf(),
        ensures
            r@.len() == self.key_seq().len(),
            forall|i: int| 0 <= i < r@.len() ==> (#[trigger] r@[i])@ == self.key_seq()[i],
            forall|i: int|
                0 <= i < r@.len() ==> self.as_map().contains_key((#[trigger] r@[i])@),
            forall|k: Seq<char>|
                #[trigger] self.as_map().contains_key(k) ==> exists|i: int|
                    0 <= i < r@.len() && r@[i]@ == k,
    {
        proof {
            lemma_obj_pairs_map(self.objects@);
        }
        let mut out: Vec<String> = Vec::new();
        let n = self.objects.len();
        for i in 0..n
            invariant
                n == self.objects@.len(),
                self.wf(),
                out@.len() == i,
                forall|k: int| 0 <= k < i ==> (#[trigger] out@[k])@ == self.key_seq()[k],
        {
            out.push(self.objects[i].0.clone());
        }
        proof {
            lemma_obj_pairs_map(self.objects@);
            assert forall|i: int|
                0 <= i < out@.len() implies self.as_map().contains_key(
                (#[trigger] out@[i])@,
            ) by {
                assert(out@[i]@ == self.objects@[i].0@);
            }
            assert forall|k: Seq<char>| #[trigger]
                self.as_map().contains_key(k) implies exists|i: int|
                0 <= i < out@.len() && out@[i]@ == k by {
                let j = choose|j: int| 0 <= j < self.objects@.len() && self.objects@[j].0@ == k;
                assert(out@[j]@ == self.key_seq()[j]);
                assert(out@[j]@ == k);
            }
        }
        out
    }

    /// The object stored under a hash; absent hashes are reported as not
    /// found.
    pub fn get(&self, hash: &str) -> (r: Result<&Object, VcsError>)
        requires
            self.wf(),
        ensures
            match r {
                Ok(o) => self.as_map().contains_key(hash@) && *o == self.as_map()[hash@],
                Err(e) => !self.as_map().contains_key(hash@) && e is NotFound,
            },
    {
        proof {
            lemma_obj_pairs_map(self.objects@);
        }
        let n = self.objects.len();
        for i in 0..n
            invariant
                n == self.objects@.len(),
                self.wf(),
                forall|j: int| 0 <= j < i ==> self.objects@[j].0@ != hash@,
        {
            if crate::strutil::str_eq(self.objects[i].0.as_str(), hash) {
                proof {
                    lemma_obj_pairs_map(self.objects@);
                }
                return Ok(&self.objects[i].1);
            }
        }
        Err(VcsError::NotFound("Object not found".to_owned()))
    }
}

} // verus!
