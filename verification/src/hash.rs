//! Content hashing: the SHA-1 digest (relied on from the `sha1` crate) and
//! the object-header construction that turns typed payloads into hashes.

use vstd::prelude::*;
use sha1::{Digest, Sha1};
use crate::hex::{hex_encode, hex_of_bytes, lemma_hex_len};
use crate::num::{radix_chars, radix_rep};
use crate::strutil::{push_char, string_of_chars};
use vstd::string::StrSliceExecFns;
use vstd::string::StringExecFns;
use vstd::string::StringSliceAdditionalSpecFns;
use vstd::utf8::encode_utf8;

verus! {

/// The twenty-byte SHA-1 digest of a byte string, named but not defined: it
/// depends on the input alone, and the `sha1` crate computes it.
pub uninterp spec fn sha1_of(data: Seq<u8>) -> Seq<u8>;

/// Relies on the sha1 crate's Sha1 hasher: the digest is exactly twenty
/// bytes and is a function of the input bytes alone.
#[verifier::external_body]
fn sha1_digest(data: &[u8]) -> (r: Vec<u8>)
    ensures
        r@ == sha1_of(data@),
        r@.len() == 20,
{
    Sha1::digest(data).to_vec()
}

/// The forty-character lowercase hexadecimal SHA-1 digest of a byte string.
pub open spec fn sha1_hex(data: Seq<u8>) -> Seq<char> {
    hex_of_bytes(sha1_of(data))
}

/// The header prefixed to an object's payload before hashing and storage:
/// the type name, a space, the payload length in decimal, and a zero byte.
pub open spec fn object_header(obj_type: Seq<char>, content_len: nat) -> Seq<u8> {
    encode_utf8(obj_type + seq![' '] + radix_rep(10, content_len)) + seq![0u8]
}

/// Builds the header for an object of the given type and payload length.
pub fn create_object_header(obj_type: &str, content_len: usize) -> (r: Vec<u8>)
    ensures
        r@ == object_header(obj_type@, content_len as nat),
{
    let mut s = obj_type.to_owned();
    push_char(&mut s, ' ');
    let digits = radix_chars(content_len as u64, 10);
    let ds = string_of_chars(&digits);
    s.append(ds.as_str());
    assert(s@ =~= obj_type@ + seq![' '] + radix_rep(10, content_len as nat));
    let mut out = s.as_str().as_bytes_vec();
    out.push(0);
    assert(out@ =~= object_header(obj_type@, content_len as nat));
    out
}

/// The lowercase hexadecimal SHA-1 digest of raw bytes.
pub fn hash_object(data: &[u8]) -> (r: String)
    ensures
        r@ == sha1_hex(data@),
        r@.len() == 40,
{
    let digest = sha1_digest(data);
    proof {
        lemma_hex_len(digest@);
    }
    hex_encode(&digest)
}

/// The digest of a typed object: the hash of its header followed by its
/// payload.
pub open spec fn spec_hash_raw(obj_type: Seq<char>, data: Seq<u8>) -> Seq<char> {
    sha1_hex(object_header(obj_type, data.len()) + data)
}

/// Hashes a payload in stored-object form: header first, then the payload.
pub fn hash_raw_object(obj_type: &str, data: &[u8]) -> (r: String)
    ensures
        r@ == spec_hash_raw(obj_type@, data@),
        r@.len() == 40,
{
    let mut content = create_object_header(obj_type, data.len());
    content.extend_from_slice(data);
    assert(content@ =~= object_header(obj_type@, data@.len()) + data@);
    hash_object(content.as_slice())
}

} // verus!
