//! A content-addressed version-control core: SHA-1 addressed loose objects,
//! a binary staging index with a trailing content hash, canonical blob, tree
//! and commit serialization, and the untracked-file computation for status.
//!
//! Byte-level codecs shared by the object database and the index live at the
//! crate root: hex object ids to and from their 20-byte raw form, and
//! big-endian integer fields of the index file.

use vstd::prelude::*;

pub mod command;
pub mod database;
pub mod gitobject;
pub mod index;
pub mod minigiterror;
pub mod refs;
pub mod sha;
pub mod strutil;
pub mod workspace;

verus! {

/// The characters allowed in the hexadecimal form of an object id.
pub open spec fn is_lower_hex_digit(c: char) -> bool {
    (48 <= c as int && c as int <= 57) || (97 <= c as int && c as int <= 102)
}

/// Numeric value of one lowercase hexadecimal digit.
pub open spec fn hex_val(c: char) -> int {
    if 48 <= c as int && c as int <= 57 {
        c as int - 48
    } else {
        c as int - 87
    }
}

/// The byte written for the pair of hex digits at positions 2i, 2i+1.
pub open spec fn oid_pair_byte(s: Seq<char>, i: int) -> u8 {
    (16 * hex_val(s[2 * i]) + hex_val(s[2 * i + 1])) as u8
}

/// Lowercase hex digit character for a value below 16.
pub open spec fn hex_char_of(v: u8) -> char
    recommends
        v < 16,
{
    if v < 10 {
        (v + 48) as char
    } else {
        (v + 87) as char
    }
}

/// Hexadecimal rendering of a byte sequence, two digits per byte.
pub open spec fn hex_of_bytes(b: Seq<u8>) -> Seq<char> {
    Seq::new(
        2 * b.len(),
        |i: int|
            if i % 2 == 0 {
                hex_char_of(b[i / 2] >> 4)
            } else {
                hex_char_of(b[i / 2] & 0xf)
            },
    )
}

/// A well-formed object id: 40 lowercase hexadecimal characters.
pub open spec fn is_oid(s: Seq<char>) -> bool {
    s.len() == 40 && forall|i: int| 0 <= i < 40 ==> is_lower_hex_digit(#[trigger] s[i])
}

/// The 20 raw bytes named by a 40-character hex object id.
pub open spec fn oid_raw_of(s: Seq<char>) -> Seq<u8> {
    Seq::new(20, |i: int| oid_pair_byte(s, i))
}

/// Every character of a hexadecimal rendering is a lowercase hex digit.
pub proof fn lemma_hex_of_bytes_is_hex(b: Seq<u8>)
    ensures
        forall|i: int|
            0 <= i < hex_of_bytes(b).len() ==> is_lower_hex_digit(#[trigger] hex_of_bytes(b)[i]),
{
    assert forall|i: int|
        0 <= i < hex_of_bytes(b).len() implies is_lower_hex_digit(
        #[trigger] hex_of_bytes(b)[i],
    ) by {
        let v: u8 = if i % 2 == 0 {
            b[i / 2] >> 4
        } else {
            b[i / 2] & 0xf
        };
        let x = b[i / 2];
        assert(x >> 4 < 16 && x & 0xf < 16) by (bit_vector);
        assert(hex_of_bytes(b)[i] == hex_char_of(v));
    }
}

/// Rendering raw bytes as hex and reading the pairs back yields the bytes.
pub proof fn lemma_oid_raw_roundtrip(b: Seq<u8>)
    requires
        b.len() == 20,
    ensures
        is_oid(hex_of_bytes(b)),
        oid_raw_of(hex_of_bytes(b)) =~= b,
{
    lemma_hex_of_bytes_is_hex(b);
    let s = hex_of_bytes(b);
    assert forall|i: int| 0 <= i < 20 implies oid_raw_of(s)[i] == b[i] by {
        let x = b[i];
        assert(s[2 * i] == hex_char_of(x >> 4));
        assert(s[2 * i + 1] == hex_char_of(x & 0xf));
        assert(x >> 4 < 16 && x & 0xf < 16) by (bit_vector);
        let hi = x >> 4;
        let lo = x & 0xf;
        assert(hex_val(hex_char_of(hi)) == hi as int && hex_val(hex_char_of(lo)) == lo as int);
        assert(16 * (x >> 4) as int + (x & 0xf) as int == x as int) by (bit_vector);
    }
}

/// Big-endian bytes of a 32-bit value.
pub open spec fn spec_be32(n: u32) -> Seq<u8> {
    seq![
        ((n >> 24) & 0xff) as u8,
        ((n >> 16) & 0xff) as u8,
        ((n >> 8) & 0xff) as u8,
        (n & 0xff) as u8,
    ]
}

/// The 32-bit value read from four big-endian bytes.
pub open spec fn spec_u32_of_be(b: Seq<u8>) -> u32
    recommends
        b.len() >= 4,
{
    ((b[0] as u32) << 24) | ((b[1] as u32) << 16) | ((b[2] as u32) << 8) | (b[3] as u32)
}

/// Big-endian bytes of a 16-bit value.
pub open spec fn spec_be16(n: u16) -> Seq<u8> {
    seq![((n >> 8) & 0xff) as u8, (n & 0xff) as u8]
}

/// The 16-bit value read from two big-endian bytes.
pub open spec fn spec_u16_of_be(b: Seq<u8>) -> u16
    recommends
        b.len() >= 2,
{
    ((b[0] as u16) << 8) | (b[1] as u16)
}

/// Numeric value of a pair of lowercase hex digit characters.
fn hex_pair_val(hi: char, lo: char) -> (r: u8)
    requires
        is_lower_hex_digit(hi),
        is_lower_hex_digit(lo),
    ensures
        r == (16 * hex_val(hi) + hex_val(lo)) as u8,
{
    let h: u32 = hi as u32;
    let l: u32 = lo as u32;
    let hv: u32 = if h <= 57 { h - 48 } else { h - 87 };
    let lv: u32 = if l <= 57 { l - 48 } else { l - 87 };
    (16 * hv + lv) as u8
}

/// Raw 20-byte form of a hex object id: one byte for each pair of digits,
/// zero-filled past the digits given.
pub fn oid_to_compressed_u8_array(oid: &str) -> (r: Vec<u8>)
    requires
        oid@.len() <= 40,
        forall|i: int| 0 <= i < oid@.len() ==> is_lower_hex_digit(#[trigger] oid@[i]),
    ensures
        r@.len() == 20,
        forall|i: int| 0 <= i < oid@.len() / 2 ==> r@[i] == oid_pair_byte(oid@, i),
        forall|i: int| oid@.len() / 2 <= i < 20 ==> r@[i] == 0u8,
{
    let n: usize = oid.unicode_len();
    let mut r: Vec<u8> = Vec::new();
    let mut i: usize = 0;
    while i < n / 2
        invariant
            oid@.len() == n <= 40,
            forall|j: int| 0 <= j < oid@.len() ==> is_lower_hex_digit(#[trigger] oid@[j]),
            i <= n / 2,
            r@.len() == i,
            forall|j: int| 0 <= j < i ==> r@[j] == oid_pair_byte(oid@, j),
        decreases n / 2 - i,
    {
        let hi: char = oid.get_char(2 * i);
        let lo: char = oid.get_char(2 * i + 1);
        r.push(hex_pair_val(hi, lo));
        i += 1;
    }
    while r.len() < 20
        invariant
            n / 2 <= r@.len() <= 20,
            forall|j: int| 0 <= j < oid@.len() / 2 ==> r@[j] == oid_pair_byte(oid@, j),
            forall|j: int| oid@.len() / 2 <= j < r@.len() ==> r@[j] == 0u8,
            oid@.len() == n,
        decreases 20 - r@.len(),
    {
        r.push(0u8);
    }
    r
}

/// Appends the lowercase hex digit for a value below 16 to a string.
pub(crate) fn push_hex_digit(s: &mut String, v: u8)
    requires
        v < 16,
    ensures
        final(s)@ == old(s)@.push(hex_char_of(v)),
{
    proof {
        reveal_strlit("0");
        reveal_strlit("1");
        reveal_strlit("2");
        reveal_strlit("3");
        reveal_strlit("4");
        reveal_strlit("5");
        reveal_strlit("6");
        reveal_strlit("7");
        reveal_strlit("8");
        reveal_strlit("9");
        reveal_strlit("a");
        reveal_strlit("b");
        reveal_strlit("c");
        reveal_strlit("d");
        reveal_strlit("e");
        reveal_strlit("f");
    }
    match v {
        0 => s.append("0"),
        1 => s.append("1"),
        2 => s.append("2"),
        3 => s.append("3"),
        4 => s.append("4"),
        5 => s.append("5"),
        6 => s.append("6"),
        7 => s.append("7"),
        8 => s.append("8"),
        9 => s.append("9"),
        10 => s.append("a"),
        11 => s.append("b"),
        12 => s.append("c"),
        13 => s.append("d"),
        14 => s.append("e"),
        _ => s.append("f"),
    }
    proof {
        assert(old(s)@.push(hex_char_of(v)) =~= final(s)@);
    }
}

/// Lowercase hexadecimal rendering of a byte slice, two digits per byte.
pub fn uncompress_u8_array_to_oid(input: &[u8]) -> (r: String)
    ensures
        r@ == hex_of_bytes(input@),
{
    let mut r: String = String::new();
    let mut i: usize = 0;
    while i < input.len()
        invariant
            i <= input@.len(),
            r@ == hex_of_bytes(input@.take(i as int)),
        decreases input@.len() - i,
    {
        let b: u8 = input[i];
        assert(b >> 4 < 16 && b & 0xf < 16) by (bit_vector);
        let hi: u8 = b >> 4;
        let lo: u8 = b & 0xf;
        push_hex_digit(&mut r, hi);
        push_hex_digit(&mut r, lo);
        i += 1;
        proof {
            assert(r@ =~= hex_of_bytes(input@.take(i as int)));
        }
    }
    proof {
        assert(input@.take(input@.len() as int) =~= input@);
    }
    r
}

/// The four big-endian bytes of a 32-bit value.
pub fn u32_to_u8_array_big_endian(number: u32) -> (r: Vec<u8>)
    ensures
        r@ == spec_be32(number),
{
    assert((number >> 24) & 0xff < 256 && (number >> 16) & 0xff < 256 && (number >> 8) & 0xff
        < 256 && number & 0xff < 256) by (bit_vector);
    let mut r: Vec<u8> = Vec::new();
    r.push(((number >> 24) & 0xff) as u8);
    r.push(((number >> 16) & 0xff) as u8);
    r.push(((number >> 8) & 0xff) as u8);
    r.push((number & 0xff) as u8);
    proof {
        assert(r@ =~= spec_be32(number));
    }
    r
}

/// The 32-bit value read from the first four bytes, big-endian.
pub fn u8_array_to_u32_big_endian(input: &[u8]) -> (r: u32)
    requires
        input@.len() >= 4,
    ensures
        r == spec_u32_of_be(input@),
{
    ((input[0] as u32) << 24) | ((input[1] as u32) << 16) | ((input[2] as u32) << 8) | (
    input[3] as u32)
}

/// The two big-endian bytes of a 16-bit value.
pub fn u16_to_u8_array_big_endian(number: u16) -> (r: Vec<u8>)
    ensures
        r@ == spec_be16(number),
{
    assert((number >> 8) & 0xff < 256 && number & 0xff < 256) by (bit_vector);
    let mut r: Vec<u8> = Vec::new();
    r.push(((number >> 8) & 0xff) as u8);
    r.push((number & 0xff) as u8);
    proof {
        assert(r@ =~= spec_be16(number));
    }
    r
}

/// The 16-bit value read from the first two bytes, big-endian.
pub fn u8_array_to_u16_big_endian(input: &[u8]) -> (r: u16)
    requires
        input@.len() >= 2,
    ensures
        r == spec_u16_of_be(input@),
{
    ((input[0] as u16) << 8) | (input[1] as u16)
}

/// Writing a 32-bit value big-endian and reading it back yields the value.
pub proof fn lemma_be32_roundtrip(n: u32)
    ensures
        spec_u32_of_be(spec_be32(n)) == n,
{
    let b0 = ((n >> 24) & 0xff) as u8;
    let b1 = ((n >> 16) & 0xff) as u8;
    let b2 = ((n >> 8) & 0xff) as u8;
    let b3 = (n & 0xff) as u8;
    assert(((b0 as u32) << 24) | ((b1 as u32) << 16) | ((b2 as u32) << 8) | (b3 as u32) == n)
        by (bit_vector)
        requires
            b0 == ((n >> 24) & 0xff) as u8,
            b1 == ((n >> 16) & 0xff) as u8,
            b2 == ((n >> 8) & 0xff) as u8,
            b3 == (n & 0xff) as u8,
    ;
}

/// Reading four big-endian bytes and writing the value back yields the bytes.
pub proof fn lemma_be32_parse(b: Seq<u8>)
    requires
        b.len() == 4,
    ensures
        spec_be32(spec_u32_of_be(b)) =~= b,
{
    let n = spec_u32_of_be(b);
    let b0 = b[0];
    let b1 = b[1];
    let b2 = b[2];
    let b3 = b[3];
    assert(((n >> 24) & 0xff) as u8 == b0 && ((n >> 16) & 0xff) as u8 == b1 && ((n >> 8) & 0xff)
        as u8 == b2 && (n & 0xff) as u8 == b3) by (bit_vector)
        requires
            n == ((b0 as u32) << 24) | ((b1 as u32) << 16) | ((b2 as u32) << 8) | (b3 as u32),
    ;
}

} // verus!
