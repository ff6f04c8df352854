//! Verified string helpers: equality, prefix tests, searching, trimming and
//! building, plus the few trusted bridges to std string functions that vstd
//! leaves unspecified.

use vstd::prelude::*;
use vstd::string::StrSliceExecFns;
use vstd::string::StringExecFns;
use vstd::string::StringSliceAdditionalSpecFns;
use vstd::utf8::{decode_utf8, encode_utf8, valid_utf8};

verus! {

/// Relies on String::push: it appends exactly one character.
#[verifier::external_body]
pub(crate) fn push_char(s: &mut String, c: char)
    ensures
        final(s)@ == old(s)@.push(c),
{
    s.push(c);
}

/// Relies on String::from_utf8: it succeeds exactly on valid UTF-8 and
/// decodes the bytes.
#[verifier::external_body]
pub(crate) fn string_from_utf8(v: Vec<u8>) -> (r: Option<String>)
    ensures
        match r {
            Some(s) => valid_utf8(v@) && s@ == decode_utf8(v@),
            None => !valid_utf8(v@),
        },
{
    match String::from_utf8(v) {
        Ok(s) => Some(s),
        Err(_) => None,
    }
}

/// The string holding exactly the given characters.
pub fn string_of_chars(v: &Vec<char>) -> (r: String)
    ensures
        r@ == v@,
{
    let mut r = String::new();
    let len = v.len();
    for i in 0..len
        invariant
            len == v@.len(),
            r@ =~= v@.take(i as int),
    {
        push_char(&mut r, v[i]);
        assert(r@ =~= v@.take(i + 1));
    }
    assert(r@ =~= v@);
    r
}

/// Whether two string slices hold the same characters.
pub fn str_eq(a: &str, b: &str) -> (r: bool)
    ensures
        r == (a@ == b@),
{
    let ab = a.as_bytes();
    let bb = b.as_bytes();
    if ab.len() != bb.len() {
        proof {
            if a@ == b@ {
                assert(encode_utf8(a@) == encode_utf8(b@));
            }
        }
        return false;
    }
    let len = ab.len();
    for i in 0..len
        invariant
            len == ab@.len() == bb@.len(),
            ab@ == a.spec_bytes() && bb@ == b.spec_bytes(),
            forall|j: int| 0 <= j < i ==> ab@[j] == bb@[j],
    {
        if ab[i] != bb[i] {
            proof {
                if a@ == b@ {
                    assert(encode_utf8(a@) == encode_utf8(b@));
                }
            }
            return false;
        }
    }
    proof {
        assert(ab@ =~= bb@);
        assert(encode_utf8(a@) == encode_utf8(b@));
        vstd::utf8::encode_utf8_valid_utf8(a@);
        vstd::utf8::encode_utf8_decode_utf8(a@);
        vstd::utf8::encode_utf8_decode_utf8(b@);
        assert(a@ == decode_utf8(encode_utf8(a@)));
    }
    true
}

/// Whether `s` begins with the characters of `p`.
pub open spec fn spec_starts_with(s: Seq<char>, p: Seq<char>) -> bool {
    p.len() <= s.len() && s.subrange(0, p.len() as int) == p
}

/// Whether the string slice `s` begins with `p`.
pub fn starts_with_str(s: &str, p: &str) -> (r: bool)
    ensures
        r == spec_starts_with(s@, p@),
{
    let slen = s.unicode_len();
    let plen = p.unicode_len();
    if plen > slen {
        return false;
    }
    for i in 0..plen
        invariant
            plen == p@.len() <= s@.len(),
            forall|j: int| 0 <= j < i ==> s@[j] == p@[j],
    {
        if s.get_char(i) != p.get_char(i) {
            assert(s@.subrange(0, p@.len() as int)[i as int] != p@[i as int]);
            return false;
        }
    }
    assert(s@.subrange(0, p@.len() as int) =~= p@);
    true
}

/// The index of the first occurrence of `c` in `s`, if any.
pub open spec fn first_index_of(s: Seq<char>, c: char) -> Option<int>
    decreases s.len(),
{
    if s.len() == 0 {
        None
    } else if s.first() == c {
        Some(0)
    } else {
        match first_index_of(s.drop_first(), c) {
            Some(i) => Some(i + 1),
            None => None,
        }
    }
}

/// What the first-occurrence index satisfies: it holds `c`, nothing before it
/// does, and a missing result means `c` does not occur at all.
pub proof fn lemma_first_index_of_props(s: Seq<char>, c: char)
    ensures
        match first_index_of(s, c) {
            Some(i) => 0 <= i < s.len() && s[i] == c && forall|j: int| 0 <= j < i ==> s[j] != c,
            None => forall|j: int| 0 <= j < s.len() ==> s[j] != c,
        },
    decreases s.len(),
{
    if s.len() > 0 && s.first() != c {
        lemma_first_index_of_props(s.drop_first(), c);
        match first_index_of(s.drop_first(), c) {
            Some(i) => {
                assert(s[i + 1] == s.drop_first()[i]);
                assert forall|j: int| 0 <= j < i + 1 implies s[j] != c by {
                    if j > 0 {
                        assert(s[j] == s.drop_first()[j - 1]);
                    }
                }
            },
            None => {
                assert forall|j: int| 0 <= j < s.len() implies s[j] != c by {
                    if j > 0 {
                        assert(s[j] == s.drop_first()[j - 1]);
                    }
                }
            },
        }
    }
}

/// The index of the first occurrence of byte `b` in `d`, if any.
pub open spec fn first_index_of_byte(d: Seq<u8>, b: u8) -> Option<int>
    decreases d.len(),
{
    if d.len() == 0 {
        None
    } else if d.first() == b {
        Some(0)
    } else {
        match first_index_of_byte(d.drop_first(), b) {
            Some(i) => Some(i + 1),
            None => None,
        }
    }
}

/// What the first-occurrence byte index satisfies.
pub proof fn lemma_first_index_of_byte_props(d: Seq<u8>, b: u8)
    ensures
        match first_index_of_byte(d, b) {
            Some(i) => 0 <= i < d.len() && d[i] == b && forall|j: int| 0 <= j < i ==> d[j] != b,
            None => forall|j: int| 0 <= j < d.len() ==> d[j] != b,
        },
    decreases d.len(),
{
    if d.len() > 0 && d.first() != b {
        lemma_first_index_of_byte_props(d.drop_first(), b);
        match first_index_of_byte(d.drop_first(), b) {
            Some(i) => {
                assert(d[i + 1] == d.drop_first()[i]);
                assert forall|j: int| 0 <= j < i + 1 implies d[j] != b by {
                    if j > 0 {
                        assert(d[j] == d.drop_first()[j - 1]);
                    }
                }
            },
            None => {
                assert forall|j: int| 0 <= j < d.len() implies d[j] != b by {
                    if j > 0 {
                        assert(d[j] == d.drop_first()[j - 1]);
                    }
                }
            },
        }
    }
}

/// The first position of byte `b` in `d` at or after `from`, if any.
pub fn find_byte(d: &[u8], from: usize, b: u8) -> (r: Option<usize>)
    requires
        from <= d@.len(),
    ensures
        match r {
            Some(k) => from <= k < d@.len() && d@[k as int] == b && forall|j: int|
                from <= j < k ==> d@[j] != b,
            None => forall|j: int| from <= j < d@.len() ==> d@[j] != b,
        },
{
    let len = d.len();
    for k in from..len
        invariant
            len == d@.len(),
            forall|j: int| from <= j < k ==> d@[j] != b,
    {
        if d[k] == b {
            return Some(k);
        }
    }
    None
}

/// The bytes of `d` between `from` (inclusive) and `to` (exclusive).
pub fn subrange_vec(d: &[u8], from: usize, to: usize) -> (r: Vec<u8>)
    requires
        from <= to <= d@.len(),
    ensures
        r@ == d@.subrange(from as int, to as int),
{
    let mut r: Vec<u8> = Vec::new();
    for k in from..to
        invariant
            from <= to <= d@.len(),
            r@ =~= d@.subrange(from as int, k as int),
    {
        r.push(d[k]);
        assert(r@ =~= d@.subrange(from as int, k + 1 as int));
    }
    r
}
pub open spec fn last_index_of(s: Seq<char>, c: char) -> Option<int>
    decreases s.len(),
{
    if s.len() == 0 {
        None
    } else if s.last() == c {
        Some(s.len() - 1)
    } else {
        last_index_of(s.drop_last(), c)
    }
}

/// What the last-occurrence index satisfies: it holds `c`, nothing after it
/// does, and a missing result means `c` does not occur at all.
pub proof fn lemma_last_index_of_props(s: Seq<char>, c: char)
    ensures
        match last_index_of(s, c) {
            Some(i) => 0 <= i < s.len() && s[i] == c && forall|j: int|
                i < j < s.len() ==> s[j] != c,
            None => forall|j: int| 0 <= j < s.len() ==> s[j] != c,
        },
    decreases s.len(),
{
    if s.len() > 0 && s.last() != c {
        lemma_last_index_of_props(s.drop_last(), c);
        assert forall|j: int| 0 <= j < s.len() - 1 implies s.drop_last()[j] == s[j] by {}
    }
}

/// The characters of a string slice as a vector.
pub fn chars_of_str(s: &str) -> (r: Vec<char>)
    ensures
        r@ == s@,
{
    let len = s.unicode_len();
    let mut r: Vec<char> = Vec::new();
    for i in 0..len
        invariant
            len == s@.len(),
            r@ =~= s@.take(i as int),
    {
        r.push(s.get_char(i));
        assert(r@ =~= s@.take(i + 1));
    }
    assert(r@ =~= s@);
    r
}

/// The first index of `c` in `s`, if any.
pub fn find_char(s: &str, c: char) -> (r: Option<usize>)
    ensures
        match r {
            Some(i) => i < s@.len() && s@[i as int] == c && forall|j: int|
                0 <= j < i ==> s@[j] != c,
            None => forall|j: int| 0 <= j < s@.len() ==> s@[j] != c,
        },
{
    let len = s.unicode_len();
    for i in 0..len
        invariant
            len == s@.len(),
            forall|j: int| 0 <= j < i ==> s@[j] != c,
    {
        if s.get_char(i) == c {
            return Some(i);
        }
    }
    None
}

/// The last index of `c` in `s`, if any.
pub fn rfind_char(s: &str, c: char) -> (r: Option<usize>)
    ensures
        match r {
            Some(i) => i < s@.len() && s@[i as int] == c && forall|j: int|
                i < j < s@.len() ==> s@[j] != c,
            None => forall|j: int| 0 <= j < s@.len() ==> s@[j] != c,
        },
{
    let len = s.unicode_len();
    let mut i = len;
    while i > 0
        invariant
            len == s@.len(),
            i <= len,
            forall|j: int| i <= j < s@.len() ==> s@[j] != c,
        decreases i,
    {
        i = i - 1;
        if s.get_char(i) == c {
            return Some(i);
        }
    }
    None
}

/// The characters of `s` between `from` (inclusive) and `to` (exclusive).
pub fn substring(s: &str, from: usize, to: usize) -> (r: String)
    requires
        from <= to <= s@.len(),
    ensures
        r@ == s@.subrange(from as int, to as int),
{
    let sub = s.substring_char(from, to);
    sub.to_owned()
}

/// The concatenation of two string slices.
pub fn str_concat(a: &str, b: &str) -> (r: String)
    ensures
        r@ == a@ + b@,
{
    let mut r = a.to_owned();
    r.append(b);
    r
}

/// Whether `c` is one of the blank characters stripped by trimming.
pub open spec fn is_blank(c: char) -> bool {
    c == ' ' || c == '\t' || c == '\n' || c == '\r'
}

/// The characters of `s` with leading and trailing blanks removed.
pub open spec fn spec_trim(s: Seq<char>) -> Seq<char>
    decreases s.len(),
{
    if s.len() > 0 && is_blank(s.first()) {
        spec_trim(s.drop_first())
    } else if s.len() > 0 && is_blank(s.last()) {
        spec_trim(s.drop_last())
    } else {
        s
    }
}

/// Whether `c` is one of the blank characters stripped by trimming.
pub fn is_blank_char(c: char) -> (r: bool)
    ensures
        r == is_blank(c),
{
    c == ' ' || c == '\t' || c == '\n' || c == '\r'
}

/// The string `s` with leading and trailing blanks removed.
pub fn trim(s: &str) -> (r: String)
    ensures
        r@ == spec_trim(s@),
{
    let len = s.unicode_len();
    let mut lo: usize = 0;
    let mut hi: usize = len;
    assert(s@.subrange(0, len as int) =~= s@);
    loop
        invariant_except_break
            lo <= hi <= len,
            len == s@.len(),
            spec_trim(s@) == spec_trim(s@.subrange(lo as int, hi as int)),
        ensures
            lo <= hi <= s@.len(),
            spec_trim(s@) == s@.subrange(lo as int, hi as int),
        decreases hi - lo,
    {
        let ghost cur = s@.subrange(lo as int, hi as int);
        if lo < hi && is_blank_char(s.get_char(lo)) {
            assert(cur.first() == s@[lo as int]);
            assert(cur.drop_first() =~= s@.subrange(lo + 1, hi as int));
            lo = lo + 1;
        } else if lo < hi && is_blank_char(s.get_char(hi - 1)) {
            assert(cur.last() == s@[hi - 1]);
            assert(cur.drop_last() =~= s@.subrange(lo as int, hi - 1));
            hi = hi - 1;
        } else {
            proof {
                if cur.len() > 0 {
                    assert(cur.first() == s@[lo as int]);
                    assert(cur.last() == s@[hi - 1]);
                }
                assert(spec_trim(cur) == cur);
            }
            break;
        }
    }
    substring(s, lo, hi)
}

} // verus!
