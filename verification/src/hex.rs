//! Verified hexadecimal coding of byte strings: lowercase encoding, decoding
//! that accepts either case, and the round-trip laws between them.

use vstd::prelude::*;
use crate::strutil::string_of_chars;
use vstd::string::StrSliceExecFns;

verus! {

/// The lowercase hexadecimal digit characters, in value order.
pub open spec fn hex_digit_chars() -> Seq<char> {
    seq![
        '0', '1', '2', '3', '4', '5', '6', '7', '8', '9', 'a', 'b', 'c', 'd', 'e',
        'f',
    ]
}

/// The lowercase digit character for one value below sixteen.
pub open spec fn hex_digit(d: nat) -> char
    recommends
        d < 16,
{
    hex_digit_chars()[d as int]
}

/// The two lowercase digits of one byte, high nibble first.
pub open spec fn hex_of_byte(b: u8) -> Seq<char> {
    seq![hex_digit((b >> 4) as nat), hex_digit((b & 0x0f) as nat)]
}

/// The lowercase hexadecimal rendering of a byte string.
pub open spec fn hex_of_bytes(bs: Seq<u8>) -> Seq<char>
    decreases bs.len(),
{
    if bs.len() == 0 {
        Seq::<char>::empty()
    } else {
        hex_of_byte(bs.first()) + hex_of_bytes(bs.drop_first())
    }
}

/// The value of one hexadecimal digit character, either case.
pub open spec fn nibble_of(c: char) -> Option<u8> {
    let v = c as u32;
    if 48 <= v && v <= 57 {
        Some((v - 48) as u8)
    } else if 97 <= v && v <= 102 {
        Some((v - 87) as u8)
    } else if 65 <= v && v <= 70 {
        Some((v - 55) as u8)
    } else {
        None
    }
}

/// What decoding a hexadecimal string yields: the bytes when the length is
/// even and every character is a digit of either case, nothing otherwise.
pub open spec fn spec_hex_decode(s: Seq<char>) -> Option<Seq<u8>>
    decreases s.len(),
{
    if s.len() % 2 != 0 {
        None
    } else if s.len() == 0 {
        Some(Seq::<u8>::empty())
    } else {
        match (nibble_of(s[0]), nibble_of(s[1])) {
            (Some(h), Some(l)) => match spec_hex_decode(s.skip(2)) {
                Some(rest) => Some(seq![(h * 16 + l) as u8] + rest),
                None => None,
            },
            _ => None,
        }
    }
}

/// Whether `s` is a well-formed hexadecimal rendering of `n` bytes.
pub open spec fn is_hex_of_len(s: Seq<char>, n: nat) -> bool {
    s.len() == 2 * n && spec_hex_decode(s) is Some
}

/// The digit character for a value below sixteen.
pub fn hex_digit_of(d: u8) -> (r: char)
    requires
        d < 16,
    ensures
        r == hex_digit(d as nat),
{
    if d == 0 { '0' }
    else if d == 1 { '1' }
    else if d == 2 { '2' }
    else if d == 3 { '3' }
    else if d == 4 { '4' }
    else if d == 5 { '5' }
    else if d == 6 { '6' }
    else if d == 7 { '7' }
    else if d == 8 { '8' }
    else if d == 9 { '9' }
    else if d == 10 { 'a' }
    else if d == 11 { 'b' }
    else if d == 12 { 'c' }
    else if d == 13 { 'd' }
    else if d == 14 { 'e' }
    else { 'f' }
}

/// A hexadecimal digit character's code point, by its value.
pub proof fn lemma_hex_digit_val(d: nat)
    requires
        d < 16,
    ensures
        d < 10 ==> hex_digit(d) as u32 == 48 + d,
        d >= 10 ==> hex_digit(d) as u32 == 87 + d,
        nibble_of(hex_digit(d)) == Some(d as u8),
{
    if d == 0 { assert(hex_digit(0) == '0'); }
    else if d == 1 { assert(hex_digit(1) == '1'); }
    else if d == 2 { assert(hex_digit(2) == '2'); }
    else if d == 3 { assert(hex_digit(3) == '3'); }
    else if d == 4 { assert(hex_digit(4) == '4'); }
    else if d == 5 { assert(hex_digit(5) == '5'); }
    else if d == 6 { assert(hex_digit(6) == '6'); }
    else if d == 7 { assert(hex_digit(7) == '7'); }
    else if d == 8 { assert(hex_digit(8) == '8'); }
    else if d == 9 { assert(hex_digit(9) == '9'); }
    else if d == 10 { assert(hex_digit(10) == 'a'); }
    else if d == 11 { assert(hex_digit(11) == 'b'); }
    else if d == 12 { assert(hex_digit(12) == 'c'); }
    else if d == 13 { assert(hex_digit(13) == 'd'); }
    else if d == 14 { assert(hex_digit(14) == 'e'); }
    else { assert(hex_digit(15) == 'f'); }
}

/// The rendering of a byte string is twice as long as the bytes.
pub proof fn lemma_hex_len(bs: Seq<u8>)
    ensures
        hex_of_bytes(bs).len() == 2 * bs.len(),
    decreases bs.len(),
{
    if bs.len() > 0 {
        lemma_hex_len(bs.drop_first());
    }
}

/// Decoding the rendering of a byte string yields the bytes back.
pub proof fn lemma_hex_roundtrip(bs: Seq<u8>)
    ensures
        spec_hex_decode(hex_of_bytes(bs)) == Some(bs),
        is_hex_of_len(hex_of_bytes(bs), bs.len()),
    decreases bs.len(),
{
    lemma_hex_len(bs);
    if bs.len() == 0 {
        assert(hex_of_bytes(bs) =~= Seq::<char>::empty());
        assert(spec_hex_decode(hex_of_bytes(bs)) == Some(Seq::<u8>::empty()));
        assert(bs =~= Seq::<u8>::empty());
    } else {
        let b = bs.first();
        let s = hex_of_bytes(bs);
        lemma_hex_roundtrip(bs.drop_first());
        lemma_hex_len(bs.drop_first());
        assert((b >> 4) < 16 && (b & 0x0f) < 16) by (bit_vector);
        let h = (b >> 4) as nat;
        let l = (b & 0x0f) as nat;
        lemma_hex_digit_val(h);
        lemma_hex_digit_val(l);
        assert(s[0] == hex_digit(h) && s[1] == hex_digit(l));
        assert(s.skip(2) =~= hex_of_bytes(bs.drop_first()));
        assert((b >> 4) * 16 + (b & 0x0f) == b) by (bit_vector);
        assert(spec_hex_decode(s) == Some(seq![b] + bs.drop_first()));
        assert(seq![b] + bs.drop_first() =~= bs);
    }
}

/// The lowercase hexadecimal rendering of a byte string.
pub fn hex_encode(bs: &Vec<u8>) -> (r: String)
    ensures
        r@ == hex_of_bytes(bs@),
{
    let mut chars: Vec<char> = Vec::new();
    let len = bs.len();
    assert(bs@.skip(0) =~= bs@);
    for i in 0..len
        invariant
            len == bs@.len(),
            hex_of_bytes(bs@) =~= chars@ + hex_of_bytes(bs@.skip(i as int)),
            chars@.len() == 2 * i,
    {
        let b = bs[i];
        assert((b >> 4) < 16 && (b & 0x0f) < 16) by (bit_vector);
        let ghost before = chars@;
        chars.push(hex_digit_of(b >> 4));
        chars.push(hex_digit_of(b & 0x0f));
        proof {
            let rest = bs@.skip(i as int);
            assert(rest.first() == b);
            assert(rest.drop_first() =~= bs@.skip(i + 1));
            assert(hex_of_bytes(rest) =~= hex_of_byte(b) + hex_of_bytes(bs@.skip(i + 1)));
            assert(chars@ =~= before + hex_of_byte(b));
            assert(hex_of_bytes(bs@) =~= chars@ + hex_of_bytes(bs@.skip(i + 1)));
        }
    }
    assert(bs@.skip(len as int) =~= Seq::<u8>::empty());
    assert(hex_of_bytes(bs@) =~= chars@);
    string_of_chars(&chars)
}

/// The nibble value of a digit character, if it is one.
fn nibble_of_char(c: char) -> (r: Option<u8>)
    ensures
        r == nibble_of(c),
{
    let v = c as u32;
    if 48 <= v && v <= 57 {
        Some((v - 48) as u8)
    } else if 97 <= v && v <= 102 {
        Some((v - 87) as u8)
    } else if 65 <= v && v <= 70 {
        Some((v - 55) as u8)
    } else {
        None
    }
}

/// Decodes a hexadecimal string of either case into its bytes; yields nothing
/// when the length is odd or a character is not a digit.
pub fn hex_decode(s: &str) -> (r: Option<Vec<u8>>)
    ensures
        match r {
            Some(v) => spec_hex_decode(s@) == Some(v@),
            None => spec_hex_decode(s@) is None,
        },
{
    let len = s.unicode_len();
    if len % 2 != 0 {
        return None;
    }
    let mut out: Vec<u8> = Vec::new();
    let pairs = len / 2;
    assert(s@.skip(0) =~= s@);
    for i in 0..pairs
        invariant
            len == s@.len(),
            len % 2 == 0,
            pairs == len / 2,
            out@.len() == i,
            spec_hex_decode(s@) == match spec_hex_decode(s@.skip(2 * i)) {
                Some(rest) => Some(out@ + rest),
                None => None::<Seq<u8>>,
            },
    {
        let ghost rest = s@.skip(2 * i);
        proof {
            assert(rest.len() == len - 2 * i);
            assert(rest.len() % 2 == 0);
            assert(rest[0] == s@[2 * i] && rest[1] == s@[2 * i + 1]);
        }
        let c1 = s.get_char(2 * i);
        let c2 = s.get_char(2 * i + 1);
        let h = match nibble_of_char(c1) {
            Some(h) => h,
            None => {
                return None;
            },
        };
        let l = match nibble_of_char(c2) {
            Some(l) => l,
            None => {
                return None;
            },
        };
        let ghost before = out@;
        out.push(h * 16 + l);
        proof {
            assert(rest.skip(2) =~= s@.skip(2 * i + 2));
            assert(spec_hex_decode(rest) == match spec_hex_decode(s@.skip(2 * (i + 1))) {
                Some(r2) => Some(seq![(h * 16 + l) as u8] + r2),
                None => None::<Seq<u8>>,
            });
            if spec_hex_decode(s@.skip(2 * (i + 1))) is Some {
                let r2 = spec_hex_decode(s@.skip(2 * (i + 1))).unwrap();
                assert(before + (seq![(h * 16 + l) as u8] + r2) =~= out@ + r2);
            }
        }
    }
    proof {
        assert(s@.skip(2 * (pairs as int)) =~= Seq::<char>::empty());
        assert(spec_hex_decode(Seq::<char>::empty()) == Some(Seq::<u8>::empty()));
        assert(out@ + Seq::<u8>::empty() =~= out@);
    }
    Some(out)
}

} // verus!
