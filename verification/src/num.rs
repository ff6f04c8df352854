//! Verified numeric text and byte codecs: decimal and octal renderings of
//! integers, their parsers, and big-endian fixed-width byte encodings.

use vstd::prelude::*;
use vstd::arithmetic::div_mod::lemma_fundamental_div_mod;

verus! {

/// The decimal digit characters, in value order.
pub open spec fn digit_chars() -> Seq<char> {
    seq!['0', '1', '2', '3', '4', '5', '6', '7', '8', '9']
}

/// The character for one digit value below ten.
pub open spec fn digit_char(d: nat) -> char
    recommends
        d < 10,
{
    digit_chars()[d as int]
}

/// The numeric value of a digit character.
pub open spec fn char_digit_val(c: char) -> nat {
    (c as u32 - '0' as u32) as nat
}

/// Whether `c` is a digit with value below `base`.
pub open spec fn is_digit_below(c: char, base: nat) -> bool {
    ('0' as u32) <= (c as u32) && (c as u32) < '0' as u32 + base
}

/// The base-`base` rendering of `n`, most significant digit first, with no
/// leading zeros (a lone zero renders as "0").
pub open spec fn radix_rep(base: nat, n: nat) -> Seq<char>
    recommends
        2 <= base <= 10,
    decreases n,
    via radix_rep_decreases
{
    if n < base || base < 2 {
        seq![digit_char(n % base)]
    } else {
        radix_rep(base, n / base) + seq![digit_char(n % base)]
    }
}

#[via_fn]
proof fn radix_rep_decreases(base: nat, n: nat) {
    if !(n < base || base < 2) {
        assert(n / base < n) by (nonlinear_arith)
            requires
                base >= 2,
                n >= base,
        ;
    }
}

/// The value of a digit string in base `base` (digits assumed valid).
pub open spec fn radix_val(base: nat, s: Seq<char>) -> nat
    decreases s.len(),
{
    if s.len() == 0 {
        0
    } else {
        radix_val(base, s.drop_last()) * base + char_digit_val(s.last())
    }
}

/// Whether `s` is one or more digits, each below `base`.
pub open spec fn all_digits_below(s: Seq<char>, base: nat) -> bool {
    s.len() > 0 && forall|i: int| 0 <= i < s.len() ==> is_digit_below(s[i], base)
}

/// What parsing a base-`base` string into a 64-bit integer yields: the value
/// when every character is a digit and the value fits, nothing otherwise.
pub open spec fn spec_parse_radix_u64(base: nat, s: Seq<char>) -> Option<u64> {
    if all_digits_below(s, base) && radix_val(base, s) <= u64::MAX {
        Some(radix_val(base, s) as u64)
    } else {
        None
    }
}

/// A digit character's code point is forty-eight plus its value.
pub proof fn lemma_digit_char_val(d: nat)
    requires
        d < 10,
    ensures
        digit_char(d) as u32 == 48 + d,
        char_digit_val(digit_char(d)) == d,
{
    if d == 0 {
        assert(digit_char(0) == '0');
    } else if d == 1 {
        assert(digit_char(1) == '1');
    } else if d == 2 {
        assert(digit_char(2) == '2');
    } else if d == 3 {
        assert(digit_char(3) == '3');
    } else if d == 4 {
        assert(digit_char(4) == '4');
    } else if d == 5 {
        assert(digit_char(5) == '5');
    } else if d == 6 {
        assert(digit_char(6) == '6');
    } else if d == 7 {
        assert(digit_char(7) == '7');
    } else if d == 8 {
        assert(digit_char(8) == '8');
    } else {
        assert(digit_char(9) == '9');
    }
}

/// The digit character for a value below ten.
pub fn digit_char_of(d: u64) -> (r: char)
    requires
        d < 10,
    ensures
        r == digit_char(d as nat),
{
    if d == 0 { '0' }
    else if d == 1 { '1' }
    else if d == 2 { '2' }
    else if d == 3 { '3' }
    else if d == 4 { '4' }
    else if d == 5 { '5' }
    else if d == 6 { '6' }
    else if d == 7 { '7' }
    else if d == 8 { '8' }
    else { '9' }
}

/// Renders `n` in base `base` as characters, most significant first.
pub fn radix_chars(n: u64, base: u64) -> (r: Vec<char>)
    requires
        2 <= base <= 10,
    ensures
        r@ == radix_rep(base as nat, n as nat),
{
    let mut rev: Vec<char> = Vec::new();
    let mut m: u64 = n;
    loop
        invariant_except_break
            2 <= base <= 10,
            radix_rep(base as nat, n as nat) =~= radix_rep(base as nat, m as nat)
                + rev@.reverse(),
        ensures
            radix_rep(base as nat, n as nat) =~= rev@.reverse(),
        decreases m,
    {
        let d: u64 = m % base;
        let ghost old_rev = rev@;
        rev.push(digit_char_of(d));
        assert(rev@.reverse() =~= seq![digit_char(d as nat)] + old_rev.reverse());
        let next: u64 = m / base;
        if next == 0 {
            proof {
                assert(m < base) by (nonlinear_arith)
                    requires
                        base >= 2,
                        m / base == 0,
                ;
            }
            assert(radix_rep(base as nat, m as nat) =~= seq![digit_char(d as nat)]);
            break;
        }
        proof {
            assert(m / base < m && m >= base) by (nonlinear_arith)
                requires
                    base >= 2,
                    m / base != 0,
            ;
            assert(radix_rep(base as nat, m as nat) =~= radix_rep(base as nat, next as nat)
                + seq![digit_char(d as nat)]);
            assert(radix_rep(base as nat, n as nat) =~= radix_rep(base as nat, next as nat)
                + rev@.reverse());
        }
        m = next;
    }
    let mut out: Vec<char> = Vec::new();
    let len = rev.len();
    for k in 0..len
        invariant
            len == rev.len(),
            out@ =~= rev@.reverse().take(k as int),
    {
        out.push(rev[len - 1 - k]);
        assert(out@ =~= rev@.reverse().take(k + 1 as int));
    }
    assert(out@ =~= rev@.reverse());
    out
}

/// The clamp ceiling used while accumulating parsed digits: one past the
/// largest 64-bit value.
pub open spec fn parse_cap() -> nat {
    0x1_0000_0000_0000_0000
}

/// Parses characters as a base-`base` integer, yielding the value exactly
/// when all characters are digits below `base` and the value fits in 64 bits.
pub fn parse_radix_chars(s: &Vec<char>, base: u64) -> (r: Option<u64>)
    requires
        2 <= base <= 10,
    ensures
        r == spec_parse_radix_u64(base as nat, s@),
{
    if s.len() == 0 {
        return None;
    }
    let mut acc: u128 = 0;
    let len = s.len();
    for i in 0..len
        invariant
            2 <= base <= 10,
            len == s@.len(),
            forall|j: int| 0 <= j < i ==> is_digit_below(s@[j], base as nat),
            acc == if radix_val(base as nat, s@.take(i as int)) > u64::MAX {
                parse_cap()
            } else {
                radix_val(base as nat, s@.take(i as int))
            },
    {
        let c = s[i];
        let v: u32 = c as u32;
        if v < 48 || v >= 48 + (base as u32) {
            assert(!is_digit_below(s@[i as int], base as nat));
            return None;
        }
        let d: u128 = (v - 48) as u128;
        assert(is_digit_below(s@[i as int], base as nat));
        let ghost prefix = s@.take(i as int);
        let ghost next_prefix = s@.take(i + 1);
        assert(next_prefix.drop_last() =~= prefix);
        assert(next_prefix.last() == s@[i as int]);
        assert(radix_val(base as nat, next_prefix) == radix_val(base as nat, prefix)
            * (base as nat) + d as nat);
        assert(acc <= parse_cap());
        assert(acc * (base as u128) + d < u128::MAX) by (nonlinear_arith)
            requires
                acc <= 0x1_0000_0000_0000_0000,
                base <= 10,
                d < 10,
        ;
        let raw: u128 = acc * (base as u128) + d;
        proof {
            if radix_val(base as nat, prefix) > u64::MAX {
                assert(radix_val(base as nat, prefix) * (base as nat) + d as nat
                    > u64::MAX) by (nonlinear_arith)
                    requires
                        radix_val(base as nat, prefix) > u64::MAX,
                        base >= 2,
                ;
                assert(raw >= parse_cap()) by (nonlinear_arith)
                    requires
                        raw == acc * (base as u128) + d,
                        acc == parse_cap(),
                        base >= 2,
                ;
            } else {
                assert(raw == radix_val(base as nat, next_prefix));
            }
        }
        acc = if raw > u64::MAX as u128 { 0x1_0000_0000_0000_0000u128 } else { raw };
    }
    assert(s@.take(len as int) =~= s@);
    if acc > u64::MAX as u128 {
        None
    } else {
        Some(acc as u64)
    }
}

/// Parsing the rendering of a value yields the value back.
pub proof fn lemma_radix_roundtrip(base: nat, n: u64)
    requires
        2 <= base <= 10,
    ensures
        spec_parse_radix_u64(base, radix_rep(base, n as nat)) == Some(n),
{
    lemma_radix_rep_digits(base, n as nat);
    lemma_radix_val_of_rep(base, n as nat);
}

/// Every character of a rendering is a digit below the base.
pub proof fn lemma_radix_rep_digits(base: nat, n: nat)
    requires
        2 <= base <= 10,
    ensures
        all_digits_below(radix_rep(base, n), base),
        forall|i: int|
            0 <= i < radix_rep(base, n).len() ==> is_digit_below(
                #[trigger] radix_rep(base, n)[i],
                base,
            ),
    decreases n,
{
    if n < base {
        assert(n % base == n) by {
            vstd::arithmetic::div_mod::lemma_small_mod(n, base);
        }
        lemma_digit_char_val(n % base);
        assert(is_digit_below(digit_char(n % base), base));
    } else {
        assert(n / base < n) by (nonlinear_arith)
            requires
                base >= 2,
                n >= base,
        ;
        lemma_radix_rep_digits(base, n / base);
        assert(n % base < base) by {
            vstd::arithmetic::div_mod::lemma_mod_bound(n as int, base as int);
        }
        lemma_digit_char_val(n % base);
        assert(is_digit_below(digit_char(n % base), base));
    }
}

/// The value of a rendering is the rendered number.
pub proof fn lemma_radix_val_of_rep(base: nat, n: nat)
    requires
        2 <= base <= 10,
    ensures
        radix_val(base, radix_rep(base, n)) == n,
    decreases n,
{
    if n < base {
        assert(n % base == n) by {
            vstd::arithmetic::div_mod::lemma_small_mod(n, base);
        }
        let s = radix_rep(base, n);
        assert(s =~= seq![digit_char(n)]);
        assert(s.drop_last() =~= Seq::<char>::empty());
        lemma_digit_char_val(n);
        assert(char_digit_val(digit_char(n)) == n);
        assert(s.last() == digit_char(n));
        assert(radix_val(base, s.drop_last()) == 0);
        assert(radix_val(base, s) == 0 * base + n);
    } else {
        assert(n / base < n) by (nonlinear_arith)
            requires
                base >= 2,
                n >= base,
        ;
        lemma_radix_val_of_rep(base, n / base);
        let s = radix_rep(base, n);
        let hd = radix_rep(base, n / base);
        assert(s =~= hd + seq![digit_char(n % base)]);
        assert(s.drop_last() =~= hd);
        assert(n % base < base) by {
            vstd::arithmetic::div_mod::lemma_mod_bound(n as int, base as int);
        }
        lemma_digit_char_val(n % base);
        assert(char_digit_val(digit_char(n % base)) == n % base);
        assert(s.last() == digit_char(n % base));
        assert(s.drop_last() == hd);
        assert(radix_val(base, s) == radix_val(base, hd) * base + char_digit_val(s.last()));
        assert(radix_val(base, s) == (n / base) * base + n % base);
        assert((n / base) * base + n % base == n) by {
            lemma_fundamental_div_mod(n as int, base as int);
            assert(base * (n / base) == (n / base) * base) by (nonlinear_arith);
        }
    }
}

/// The big-endian byte rendering of a 32-bit integer.
pub open spec fn be_bytes_u32(n: u32) -> Seq<u8> {
    seq![(n >> 24) as u8, (n >> 16) as u8, (n >> 8) as u8, n as u8]
}

/// The 32-bit integer read from four big-endian bytes.
pub open spec fn u32_of_be(b: Seq<u8>) -> u32
    recommends
        b.len() == 4,
{
    (((b[0] as u32) << 24) | ((b[1] as u32) << 16) | ((b[2] as u32) << 8) | (b[3] as u32)) as u32
}

/// The big-endian byte rendering of a 64-bit integer.
pub open spec fn be_bytes_u64(n: u64) -> Seq<u8> {
    seq![
        (n >> 56) as u8,
        (n >> 48) as u8,
        (n >> 40) as u8,
        (n >> 32) as u8,
        (n >> 24) as u8,
        (n >> 16) as u8,
        (n >> 8) as u8,
        n as u8,
    ]
}

/// The 64-bit integer read from eight big-endian bytes.
pub open spec fn u64_of_be(b: Seq<u8>) -> u64
    recommends
        b.len() == 8,
{
    (((b[0] as u64) << 56) | ((b[1] as u64) << 48) | ((b[2] as u64) << 40) | ((b[3] as u64)
        << 32) | ((b[4] as u64) << 24) | ((b[5] as u64) << 16) | ((b[6] as u64) << 8) | (
    b[7] as u64)) as u64
}

/// Appends the four big-endian bytes of `n` to `out`.
pub fn push_be_u32(out: &mut Vec<u8>, n: u32)
    ensures
        final(out)@ == old(out)@ + be_bytes_u32(n),
{
    let ghost start = out@;
    out.push((n >> 24) as u8);
    out.push((n >> 16) as u8);
    out.push((n >> 8) as u8);
    out.push(n as u8);
    assert(out@ =~= start + be_bytes_u32(n));
}

/// Appends the eight big-endian bytes of `n` to `out`.
pub fn push_be_u64(out: &mut Vec<u8>, n: u64)
    ensures
        final(out)@ == old(out)@ + be_bytes_u64(n),
{
    let ghost start = out@;
    out.push((n >> 56) as u8);
    out.push((n >> 48) as u8);
    out.push((n >> 40) as u8);
    out.push((n >> 32) as u8);
    out.push((n >> 24) as u8);
    out.push((n >> 16) as u8);
    out.push((n >> 8) as u8);
    out.push(n as u8);
    assert(out@ =~= start + be_bytes_u64(n));
}

/// Reads a 32-bit big-endian integer from `b` at offset `at`.
pub fn read_be_u32(b: &Vec<u8>, at: usize) -> (r: u32)
    requires
        at + 4 <= b@.len(),
    ensures
        r == u32_of_be(b@.subrange(at as int, at + 4)),
{
    let blen = b.len();
    let r = ((b[at] as u32) << 24) | ((b[at + 1] as u32) << 16) | ((b[at + 2] as u32) << 8) | (b[at
        + 3] as u32);
    proof {
        let s = b@.subrange(at as int, at + 4);
        assert(s[0] == b@[at as int] && s[1] == b@[at + 1] && s[2] == b@[at + 2] && s[3] == b@[at
            + 3]);
    }
    r
}

/// Reads a 64-bit big-endian integer from `b` at offset `at`.
pub fn read_be_u64(b: &Vec<u8>, at: usize) -> (r: u64)
    requires
        at + 8 <= b@.len(),
    ensures
        r == u64_of_be(b@.subrange(at as int, at + 8)),
{
    let blen = b.len();
    let r = ((b[at] as u64) << 56) | ((b[at + 1] as u64) << 48) | ((b[at + 2] as u64) << 40) | ((b[
        at + 3] as u64) << 32) | ((b[at + 4] as u64) << 24) | ((b[at + 5] as u64) << 16) | ((b[at
        + 6] as u64) << 8) | (b[at + 7] as u64);
    proof {
        let s = b@.subrange(at as int, at + 8);
        assert(s[0] == b@[at as int] && s[1] == b@[at + 1] && s[2] == b@[at + 2] && s[3] == b@[at
            + 3] && s[4] == b@[at + 4] && s[5] == b@[at + 5] && s[6] == b@[at + 6] && s[7] == b@[at
            + 7]);
    }
    r
}

/// Reading back the big-endian bytes of a 32-bit integer yields the integer.
pub proof fn lemma_be_u32_roundtrip(n: u32)
    ensures
        u32_of_be(be_bytes_u32(n)) == n,
{
    let b = be_bytes_u32(n);
    let x0 = (n >> 24) as u8;
    let x1 = (n >> 16) as u8;
    let x2 = (n >> 8) as u8;
    let x3 = n as u8;
    assert((((x0 as u32) << 24) | ((x1 as u32) << 16) | ((x2 as u32) << 8) | (x3 as u32)) == n)
        by (bit_vector)
        requires
            x0 == (n >> 24) as u8,
            x1 == (n >> 16) as u8,
            x2 == (n >> 8) as u8,
            x3 == n as u8,
    ;
    assert(b[0] == x0 && b[1] == x1 && b[2] == x2 && b[3] == x3);
}

/// Reading back the big-endian bytes of a 64-bit integer yields the integer.
pub proof fn lemma_be_u64_roundtrip(n: u64)
    ensures
        u64_of_be(be_bytes_u64(n)) == n,
{
    let b = be_bytes_u64(n);
    let x0 = (n >> 56) as u8;
    let x1 = (n >> 48) as u8;
    let x2 = (n >> 40) as u8;
    let x3 = (n >> 32) as u8;
    let x4 = (n >> 24) as u8;
    let x5 = (n >> 16) as u8;
    let x6 = (n >> 8) as u8;
    let x7 = n as u8;
    assert((((x0 as u64) << 56) | ((x1 as u64) << 48) | ((x2 as u64) << 40) | ((x3 as u64) << 32)
        | ((x4 as u64) << 24) | ((x5 as u64) << 16) | ((x6 as u64) << 8) | (x7 as u64)) == n)
        by (bit_vector)
        requires
            x0 == (n >> 56) as u8,
            x1 == (n >> 48) as u8,
            x2 == (n >> 40) as u8,
            x3 == (n >> 32) as u8,
            x4 == (n >> 24) as u8,
            x5 == (n >> 16) as u8,
            x6 == (n >> 8) as u8,
            x7 == n as u8,
    ;
    assert(b[0] == x0 && b[1] == x1 && b[2] == x2 && b[3] == x3 && b[4] == x4 && b[5] == x5 && b[6]
        == x6 && b[7] == x7);
}

} // verus!
