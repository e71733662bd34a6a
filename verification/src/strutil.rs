//! Text rendering and byte-string ordering helpers: decimal and octal
//! renderings used in object payloads and diagnostics, the timezone suffix of
//! an author line, lexicographic order on byte strings, and decoding of path
//! bytes back into strings.

use vstd::prelude::*;
use vstd::utf8::{char_is_scalar, char_u32_cast, encode_scalar, encode_utf8, is_scalar, valid_utf8};

use crate::hex_char_of;
use crate::push_hex_digit;

verus! {

/// Decimal digit character for a value below 10.
pub open spec fn digit_char(d: int) -> char
    recommends
        0 <= d < 10,
{
    hex_char_of(d as u8)
}

/// Decimal rendering of a non-negative integer, no leading zeros.
pub open spec fn dec_digits(n: int) -> Seq<char>
    recommends
        n >= 0,
    decreases n,
{
    if n < 10 {
        seq![digit_char(n)]
    } else {
        dec_digits(n / 10).push(digit_char(n % 10))
    }
}

/// Decimal rendering of an integer, with a leading minus sign if negative.
pub open spec fn dec_signed(n: int) -> Seq<char> {
    if n < 0 {
        seq!['-'] + dec_digits(-n)
    } else {
        dec_digits(n)
    }
}

/// Decimal rendering zero-padded on the left to at least two digits.
pub open spec fn pad2_digits(n: int) -> Seq<char>
    recommends
        n >= 0,
{
    if n < 10 {
        seq!['0'] + dec_digits(n)
    } else {
        dec_digits(n)
    }
}

/// Octal rendering of a non-negative integer, no leading zeros.
pub open spec fn oct_digits(n: int) -> Seq<char>
    recommends
        n >= 0,
    decreases n,
{
    if n < 8 {
        seq![digit_char(n)]
    } else {
        oct_digits(n / 8).push(digit_char(n % 8))
    }
}

/// The timezone suffix of an author line: a sign, the absolute hours
/// zero-padded to two digits, then the remaining minutes, themselves signed
/// again when the offset is negative with a fractional hour.
pub open spec fn tz_offset_chars(offset: int) -> Seq<char> {
    let a = if offset < 0 {
        -offset
    } else {
        offset
    };
    let h = a / 3600;
    let m = (a / 60) % 60;
    let sign = if offset <= -3600 {
        seq!['-']
    } else {
        seq!['+']
    };
    let mins = if offset < 0 && m != 0 {
        seq!['-'] + dec_digits(m)
    } else {
        pad2_digits(m)
    };
    sign + pad2_digits(h) + mins
}

/// Appends the decimal digit character of a value below 10 to a string.
fn push_digit(s: &mut String, v: u8)
    requires
        v < 10,
    ensures
        final(s)@ == old(s)@.push(digit_char(v as int)),
{
    push_hex_digit(s, v);
}

/// Decimal rendering of an unsigned value.
pub fn u64_to_dec_string(n: u64) -> (r: String)
    ensures
        r@ == dec_digits(n as int),
    decreases n,
{
    if n < 10 {
        let mut s = String::new();
        push_digit(&mut s, n as u8);
        proof {
            assert(s@ =~= dec_digits(n as int));
        }
        s
    } else {
        let mut s = u64_to_dec_string(n / 10);
        push_digit(&mut s, (n % 10) as u8);
        s
    }
}

/// Decimal rendering of a signed value, minus sign first when negative.
pub fn i64_to_dec_string(n: i64) -> (r: String)
    requires
        n > i64::MIN,
    ensures
        r@ == dec_signed(n as int),
{
    if n < 0 {
        let mut s = String::new();
        proof {
            reveal_strlit("-");
        }
        s.append("-");
        let t = u64_to_dec_string((-n) as u64);
        s.append(t.as_str());
        proof {
            assert(s@ =~= dec_signed(n as int));
        }
        s
    } else {
        u64_to_dec_string(n as u64)
    }
}

/// Octal rendering of an unsigned value.
pub fn u32_to_octal_string(n: u32) -> (r: String)
    ensures
        r@ == oct_digits(n as int),
    decreases n,
{
    if n < 8 {
        let mut s = String::new();
        push_digit(&mut s, n as u8);
        proof {
            assert(s@ =~= oct_digits(n as int));
        }
        s
    } else {
        let mut s = u32_to_octal_string(n / 8);
        push_digit(&mut s, (n % 8) as u8);
        s
    }
}

/// Appends the decimal rendering of a value zero-padded to two digits.
fn push_pad2(s: &mut String, v: u32)
    ensures
        final(s)@ == old(s)@ + pad2_digits(v as int),
{
    if v < 10 {
        proof {
            reveal_strlit("0");
            assert("0"@ =~= seq!['0']);
        }
        s.append("0");
    }
    let t = u64_to_dec_string(v as u64);
    s.append(t.as_str());
}

/// The timezone suffix of an author line for an offset given in seconds.
pub fn tz_offset_string(offset: i32) -> (r: String)
    requires
        -86400 < offset < 86400,
    ensures
        r@ == tz_offset_chars(offset as int),
{
    let a: u32 = if offset < 0 {
        (-offset) as u32
    } else {
        offset as u32
    };
    let h: u32 = a / 3600;
    let m: u32 = (a / 60) % 60;
    let mut s = String::new();
    proof {
        reveal_strlit("-");
        reveal_strlit("+");
        assert("-"@ =~= seq!['-']);
        assert("+"@ =~= seq!['+']);
    }
    if offset <= -3600 {
        s.append("-");
    } else {
        s.append("+");
    }
    push_pad2(&mut s, h);
    if offset < 0 && m != 0 {
        s.append("-");
        let t = u64_to_dec_string(m as u64);
        s.append(t.as_str());
    } else {
        push_pad2(&mut s, m);
    }
    s
}

/// Strict lexicographic order on byte strings: a proper prefix comes first,
/// otherwise the first differing byte decides.
pub open spec fn bytes_lt(a: Seq<u8>, b: Seq<u8>) -> bool
    decreases a.len(),
{
    if b.len() == 0 {
        false
    } else if a.len() == 0 {
        true
    } else if a[0] < b[0] {
        true
    } else if a[0] > b[0] {
        false
    } else {
        bytes_lt(a.drop_first(), b.drop_first())
    }
}

/// Of two byte strings, exactly one of `a < b`, `a == b`, `b < a` holds.
pub proof fn lemma_bytes_lt_trichotomy(a: Seq<u8>, b: Seq<u8>)
    ensures
        bytes_lt(a, b) || bytes_lt(b, a) || a =~= b,
        bytes_lt(a, b) ==> !bytes_lt(b, a) && !(a =~= b),
        bytes_lt(b, a) ==> !bytes_lt(a, b) && !(a =~= b),
    decreases a.len(),
{
    if a.len() > 0 && b.len() > 0 && a[0] == b[0] {
        lemma_bytes_lt_trichotomy(a.drop_first(), b.drop_first());
        if a.drop_first() =~= b.drop_first() {
            assert forall|i: int| 0 <= i < a.len() implies a[i] == b[i] by {
                if i > 0 {
                    assert(a[i] == a.drop_first()[i - 1]);
                    assert(b[i] == b.drop_first()[i - 1]);
                }
            }
            assert(a =~= b);
        }
        if a =~= b {
            assert(a.drop_first() =~= b.drop_first());
        }
    } else if a =~= b {
        assert(a.len() == b.len());
    }
}

/// Lexicographic order on byte strings is transitive.
pub proof fn lemma_bytes_lt_trans(a: Seq<u8>, b: Seq<u8>, c: Seq<u8>)
    requires
        bytes_lt(a, b),
        bytes_lt(b, c),
    ensures
        bytes_lt(a, c),
    decreases a.len(),
{
    if a.len() > 0 && b.len() > 0 && c.len() > 0 {
        if a[0] == b[0] && b[0] == c[0] {
            lemma_bytes_lt_trans(a.drop_first(), b.drop_first(), c.drop_first());
        }
    }
}

/// When the first `i` bytes of two byte strings agree, their order is
/// decided by what remains.
pub proof fn lemma_bytes_lt_skip(a: Seq<u8>, b: Seq<u8>, i: int)
    requires
        0 <= i <= a.len(),
        i <= b.len(),
        a.take(i) =~= b.take(i),
    ensures
        bytes_lt(a, b) == bytes_lt(a.skip(i), b.skip(i)),
    decreases i,
{
    if i == 0 {
        assert(a.skip(0) =~= a);
        assert(b.skip(0) =~= b);
    } else {
        assert(a.take(i)[0] == a[0]);
        assert(b.take(i)[0] == b[0]);
        assert forall|j: int| 0 <= j < i - 1 implies #[trigger] a.drop_first().take(i - 1)[j]
            == b.drop_first().take(i - 1)[j] by {
            assert(a.take(i)[j + 1] == b.take(i)[j + 1]);
        }
        assert(a.drop_first().take(i - 1) =~= b.drop_first().take(i - 1));
        lemma_bytes_lt_skip(a.drop_first(), b.drop_first(), i - 1);
        assert(a.drop_first().skip(i - 1) =~= a.skip(i));
        assert(b.drop_first().skip(i - 1) =~= b.skip(i));
    }
}

/// Outcome of comparing two byte strings.
#[derive(PartialEq, Eq, Structural, Clone, Copy, Debug)]
pub enum ByteOrder {
    Before,
    Same,
    After,
}

/// Compares two byte strings in lexicographic order.
pub fn compare_bytes(a: &Vec<u8>, b: &Vec<u8>) -> (r: ByteOrder)
    ensures
        r == ByteOrder::Same <==> a@ =~= b@,
        r == ByteOrder::Before <==> bytes_lt(a@, b@),
        r == ByteOrder::After <==> bytes_lt(b@, a@),
{
    let mut i: usize = 0;
    while i < a.len() && i < b.len()
        invariant
            i <= a@.len(),
            i <= b@.len(),
            a@.take(i as int) =~= b@.take(i as int),
        decreases a@.len() - i,
    {
        if a[i] != b[i] {
            proof {
                lemma_bytes_lt_skip(a@, b@, i as int);
                lemma_bytes_lt_skip(b@, a@, i as int);
                lemma_bytes_lt_trichotomy(a@, b@);
                assert(a@.skip(i as int)[0] == a@[i as int]);
                assert(b@.skip(i as int)[0] == b@[i as int]);
            }
            if a[i] < b[i] {
                return ByteOrder::Before;
            }
            return ByteOrder::After;
        }
        proof {
            assert(a@.take(i as int + 1) =~= a@.take(i as int).push(a@[i as int]));
            assert(b@.take(i as int + 1) =~= b@.take(i as int).push(b@[i as int]));
        }
        i += 1;
    }
    proof {
        lemma_bytes_lt_skip(a@, b@, i as int);
        lemma_bytes_lt_skip(b@, a@, i as int);
        lemma_bytes_lt_trichotomy(a@, b@);
    }
    if a.len() < b.len() {
        ByteOrder::Before
    } else if b.len() < a.len() {
        ByteOrder::After
    } else {
        proof {
            assert(a@.take(i as int) =~= a@);
            assert(b@.take(i as int) =~= b@);
        }
        ByteOrder::Same
    }
}

/// Whether two string slices hold the same characters.
pub fn str_eq_str(a: &str, b: &str) -> (r: bool)
    ensures
        r == (a@ =~= b@),
{
    let an = a.unicode_len();
    let bn = b.unicode_len();
    if an != bn {
        return false;
    }
    let mut i: usize = 0;
    while i < an
        invariant
            an == a@.len(),
            an == b@.len(),
            i <= an,
            forall|j: int| 0 <= j < i ==> a@[j] == b@[j],
        decreases an - i,
    {
        if a.get_char(i) != b.get_char(i) {
            return false;
        }
        i += 1;
    }
    proof {
        assert(a@ =~= b@);
    }
    true
}

/// The characters after the last occurrence of `c`, or the whole string if
/// `c` does not occur.
pub open spec fn suffix_after_last(s: Seq<char>, c: char) -> Seq<char>
    decreases s.len(),
{
    if s.len() == 0 {
        seq![]
    } else if s.last() == c {
        seq![]
    } else {
        suffix_after_last(s.drop_last(), c).push(s.last())
    }
}

/// The suffix after the last occurrence of `c` is the part of the string
/// past the last position holding `c`.
pub proof fn lemma_suffix_after_last(s: Seq<char>, c: char, i: int)
    requires
        0 <= i <= s.len(),
        forall|j: int| i <= j < s.len() ==> s[j] != c,
        i > 0 ==> s[i - 1] == c,
    ensures
        suffix_after_last(s, c) =~= s.subrange(i, s.len() as int),
    decreases s.len(),
{
    if s.len() == 0 {
    } else if i == s.len() {
        if i > 0 {
            assert(s.last() == c);
        }
    } else {
        assert(s[s.len() - 1] != c);
        lemma_suffix_after_last(s.drop_last(), c, i);
        assert(suffix_after_last(s.drop_last(), c) =~= s.drop_last().subrange(
            i,
            s.len() - 1,
        ));
        assert(s.drop_last().subrange(i, s.len() - 1) =~= s.subrange(i, s.len() - 1));
        assert(s.subrange(i, s.len() - 1).push(s.last()) =~= s.subrange(i, s.len() as int));
    }
}

/// The characters of a string after the last occurrence of `c`.
pub fn suffix_after_last_char(p: &str, c: char) -> (r: String)
    ensures
        r@ == suffix_after_last(p@, c),
{
    let n = p.unicode_len();
    let mut i: usize = n;
    while i > 0 && p.get_char(i - 1) != c
        invariant
            i <= n,
            n == p@.len(),
            forall|j: int| i <= j < n ==> p@[j] != c,
        decreases i,
    {
        i -= 1;
    }
    let sub = p.substring_char(i, n);
    proof {
        lemma_suffix_after_last(p@, c, i as int);
    }
    String::from_str(sub)
}

/// The UTF-8 encoding of a character other than NUL holds no zero byte.
proof fn lemma_encode_scalar_no_nul(c: u32)
    requires
        is_scalar(c),
        c != 0,
    ensures
        forall|i: int| 0 <= i < encode_scalar(c).len() ==> encode_scalar(c)[i] != 0,
        1 <= encode_scalar(c).len(),
{
    assert(c <= 0x7F && c != 0 ==> (c & 0x7F) as u8 != 0) by (bit_vector);
    assert(0xC0u8 | (((c >> 6) & 0x1F) as u8) != 0) by (bit_vector);
    assert(0xE0u8 | (((c >> 12) & 0x0F) as u8) != 0) by (bit_vector);
    assert(0xF0u8 | (((c >> 18) & 0x7) as u8) != 0) by (bit_vector);
    assert(0x80u8 | ((c & 0x3F) as u8) != 0) by (bit_vector);
    assert(0x80u8 | (((c >> 6) & 0x3F) as u8) != 0) by (bit_vector);
    assert(0x80u8 | (((c >> 12) & 0x3F) as u8) != 0) by (bit_vector);
}

/// A string without the NUL character encodes to bytes without the zero
/// byte, at least one byte per character.
pub proof fn lemma_encode_utf8_no_nul(s: Seq<char>)
    requires
        forall|i: int| 0 <= i < s.len() ==> (#[trigger] s[i]) != '\0',
    ensures
        forall|i: int| 0 <= i < encode_utf8(s).len() ==> (#[trigger] encode_utf8(s)[i]) != 0,
        encode_utf8(s).len() >= s.len(),
    decreases s.len(),
{
    if s.len() > 0 {
        let c = s[0] as u32;
        char_is_scalar(s[0]);
        assert(s[0] != '\0');
        assert(c != 0) by {
            char_u32_cast(s[0], c);
            if c == 0 {
                assert(s[0] == (0u32 as char));
                assert('\0' as u32 == 0);
            }
        }
        lemma_encode_scalar_no_nul(c);
        assert(forall|i: int|
            0 <= i < s.drop_first().len() ==> (#[trigger] s.drop_first()[i]) != '\0');
        lemma_encode_utf8_no_nul(s.drop_first());
        let head = encode_scalar(c);
        let tail = encode_utf8(s.drop_first());
        assert(encode_utf8(s) == head + tail);
        assert forall|i: int| 0 <= i < encode_utf8(s).len() implies (#[trigger] encode_utf8(
            s,
        )[i]) != 0 by {
            if i < head.len() {
                assert(encode_utf8(s)[i] == head[i]);
            } else {
                assert(encode_utf8(s)[i] == tail[i - head.len()]);
            }
        }
    }
}

/// A string holding the NUL character encodes to bytes holding a zero byte.
pub proof fn lemma_encode_utf8_nul_char(s: Seq<char>)
    requires
        exists|i: int| 0 <= i < s.len() && s[i] == '\0',
    ensures
        exists|j: int| 0 <= j < encode_utf8(s).len() && encode_utf8(s)[j] == 0,
    decreases s.len(),
{
    let i = choose|i: int| 0 <= i < s.len() && s[i] == '\0';
    if i == 0 {
        assert('\0' as u32 == 0);
        assert(s[0] as u32 == 0);
        assert(encode_scalar(0u32) == seq![(0u32 & 0x7F) as u8]);
        assert(encode_utf8(s) == encode_scalar(0u32) + encode_utf8(s.drop_first()));
        assert((encode_scalar(0u32) + encode_utf8(s.drop_first()))[0] == encode_scalar(
            0u32,
        )[0]);
        assert(seq![(0u32 & 0x7F) as u8][0] == (0u32 & 0x7F) as u8);
        assert((0u32 & 0x7F) as u8 == 0) by (bit_vector);
        assert(encode_utf8(s)[0] == 0);
    } else {
        char_is_scalar(s[0]);
        assert(s.drop_first()[i - 1] == '\0');
        lemma_encode_utf8_nul_char(s.drop_first());
        let j = choose|j: int|
            0 <= j < encode_utf8(s.drop_first()).len() && encode_utf8(s.drop_first())[j] == 0;
        let head = encode_scalar(s[0] as u32);
        assert(encode_utf8(s)[head.len() + j] == 0);
    }
}

/// The bytes after the last occurrence of `b`, or the whole byte string if
/// `b` does not occur.
pub open spec fn suffix_after_last_byte(s: Seq<u8>, b: u8) -> Seq<u8>
    decreases s.len(),
{
    if s.len() == 0 {
        seq![]
    } else if s.last() == b {
        seq![]
    } else {
        suffix_after_last_byte(s.drop_last(), b).push(s.last())
    }
}

/// The suffix after the last occurrence of `b` is the part of the byte
/// string past the last position holding `b`.
pub proof fn lemma_suffix_after_last_byte(s: Seq<u8>, b: u8, i: int)
    requires
        0 <= i <= s.len(),
        forall|j: int| i <= j < s.len() ==> s[j] != b,
        i > 0 ==> s[i - 1] == b,
    ensures
        suffix_after_last_byte(s, b) =~= s.subrange(i, s.len() as int),
    decreases s.len(),
{
    if s.len() == 0 {
    } else if i == s.len() {
        if i > 0 {
            assert(s.last() == b);
        }
    } else {
        assert(s[s.len() - 1] != b);
        lemma_suffix_after_last_byte(s.drop_last(), b, i);
        assert(suffix_after_last_byte(s.drop_last(), b) =~= s.drop_last().subrange(
            i,
            s.len() - 1,
        ));
        assert(s.drop_last().subrange(i, s.len() - 1) =~= s.subrange(i, s.len() - 1));
        assert(s.subrange(i, s.len() - 1).push(s.last()) =~= s.subrange(i, s.len() as int));
    }
}

/// The bytes of a byte string after the last occurrence of `b`.
pub fn suffix_after_last_byte_vec(s: &[u8], b: u8) -> (r: Vec<u8>)
    ensures
        r@ == suffix_after_last_byte(s@, b),
{
    let n = s.len();
    let mut i: usize = n;
    while i > 0 && s[i - 1] != b
        invariant
            i <= n,
            n == s@.len(),
            forall|j: int| i <= j < n ==> s@[j] != b,
        decreases i,
    {
        i -= 1;
    }
    let mut r: Vec<u8> = Vec::new();
    let mut k: usize = i;
    while k < n
        invariant
            i <= k <= n,
            n == s@.len(),
            r@ =~= s@.subrange(i as int, k as int),
        decreases n - k,
    {
        r.push(s[k]);
        proof {
            assert(r@ =~= s@.subrange(i as int, k as int + 1));
        }
        k += 1;
    }
    proof {
        lemma_suffix_after_last_byte(s@, b, i as int);
    }
    r
}

/// Strict lexicographic order on character strings by code point: a proper
/// prefix comes first, otherwise the first differing character decides.
pub open spec fn chars_lt(a: Seq<char>, b: Seq<char>) -> bool
    decreases a.len(),
{
    if b.len() == 0 {
        false
    } else if a.len() == 0 {
        true
    } else if (a[0] as int) < (b[0] as int) {
        true
    } else if (a[0] as int) > (b[0] as int) {
        false
    } else {
        chars_lt(a.drop_first(), b.drop_first())
    }
}

/// Of two character strings, exactly one of `a < b`, `a == b`, `b < a`
/// holds.
pub proof fn lemma_chars_lt_trichotomy(a: Seq<char>, b: Seq<char>)
    ensures
        chars_lt(a, b) || chars_lt(b, a) || a =~= b,
        chars_lt(a, b) ==> !chars_lt(b, a) && !(a =~= b),
        chars_lt(b, a) ==> !chars_lt(a, b) && !(a =~= b),
    decreases a.len(),
{
    if a.len() > 0 && b.len() > 0 && a[0] == b[0] {
        lemma_chars_lt_trichotomy(a.drop_first(), b.drop_first());
        if a.drop_first() =~= b.drop_first() {
            assert forall|i: int| 0 <= i < a.len() implies a[i] == b[i] by {
                if i > 0 {
                    assert(a[i] == a.drop_first()[i - 1]);
                    assert(b[i] == b.drop_first()[i - 1]);
                }
            }
            assert(a =~= b);
        }
        if a =~= b {
            assert(a.drop_first() =~= b.drop_first());
        }
    } else if a =~= b {
        assert(a.len() == b.len());
    }
}

/// Lexicographic order on character strings is transitive.
pub proof fn lemma_chars_lt_trans(a: Seq<char>, b: Seq<char>, c: Seq<char>)
    requires
        chars_lt(a, b),
        chars_lt(b, c),
    ensures
        chars_lt(a, c),
    decreases a.len(),
{
    if a.len() > 0 && b.len() > 0 && c.len() > 0 {
        if a[0] == b[0] && b[0] == c[0] {
            lemma_chars_lt_trans(a.drop_first(), b.drop_first(), c.drop_first());
        }
    }
}

/// When the first `i` characters of two strings agree, their order is
/// decided by what remains.
pub proof fn lemma_chars_lt_skip(a: Seq<char>, b: Seq<char>, i: int)
    requires
        0 <= i <= a.len(),
        i <= b.len(),
        a.take(i) =~= b.take(i),
    ensures
        chars_lt(a, b) == chars_lt(a.skip(i), b.skip(i)),
    decreases i,
{
    if i == 0 {
        assert(a.skip(0) =~= a);
        assert(b.skip(0) =~= b);
    } else {
        assert(a.take(i)[0] == a[0]);
        assert(b.take(i)[0] == b[0]);
        assert forall|j: int| 0 <= j < i - 1 implies #[trigger] a.drop_first().take(i - 1)[j]
            == b.drop_first().take(i - 1)[j] by {
            assert(a.take(i)[j + 1] == b.take(i)[j + 1]);
        }
        assert(a.drop_first().take(i - 1) =~= b.drop_first().take(i - 1));
        lemma_chars_lt_skip(a.drop_first(), b.drop_first(), i - 1);
        assert(a.drop_first().skip(i - 1) =~= a.skip(i));
        assert(b.drop_first().skip(i - 1) =~= b.skip(i));
    }
}

/// Compares two character strings in lexicographic order.
pub fn compare_strs(a: &str, b: &str) -> (r: ByteOrder)
    ensures
        r == ByteOrder::Same <==> a@ =~= b@,
        r == ByteOrder::Before <==> chars_lt(a@, b@),
        r == ByteOrder::After <==> chars_lt(b@, a@),
{
    let an = a.unicode_len();
    let bn = b.unicode_len();
    let mut i: usize = 0;
    while i < an && i < bn
        invariant
            an == a@.len(),
            bn == b@.len(),
            i <= an,
            i <= bn,
            a@.take(i as int) =~= b@.take(i as int),
        decreases an - i,
    {
        let ca = a.get_char(i);
        let cb = b.get_char(i);
        if ca != cb {
            proof {
                lemma_chars_lt_skip(a@, b@, i as int);
                lemma_chars_lt_skip(b@, a@, i as int);
                lemma_chars_lt_trichotomy(a@, b@);
                assert(a@.skip(i as int)[0] == a@[i as int]);
                assert(b@.skip(i as int)[0] == b@[i as int]);
            }
            if (ca as u32) < (cb as u32) {
                return ByteOrder::Before;
            }
            return ByteOrder::After;
        }
        proof {
            assert(a@.take(i as int + 1) =~= a@.take(i as int).push(a@[i as int]));
            assert(b@.take(i as int + 1) =~= b@.take(i as int).push(b@[i as int]));
        }
        i += 1;
    }
    proof {
        lemma_chars_lt_skip(a@, b@, i as int);
        lemma_chars_lt_skip(b@, a@, i as int);
        lemma_chars_lt_trichotomy(a@, b@);
    }
    if an < bn {
        ByteOrder::Before
    } else if bn < an {
        ByteOrder::After
    } else {
        proof {
            assert(a@.take(i as int) =~= a@);
            assert(b@.take(i as int) =~= b@);
        }
        ByteOrder::Same
    }
}

/// The characters before the first occurrence of `c`, or the whole string
/// if `c` does not occur.
pub open spec fn prefix_until(s: Seq<char>, c: char) -> Seq<char>
    decreases s.len(),
{
    if s.len() == 0 {
        seq![]
    } else if s[0] == c {
        seq![]
    } else {
        seq![s[0]] + prefix_until(s.drop_first(), c)
    }
}

/// A scan that stopped at the first occurrence of `c` found the prefix.
pub proof fn lemma_prefix_until(s: Seq<char>, c: char, i: int)
    requires
        0 <= i <= s.len(),
        forall|j: int| 0 <= j < i ==> s[j] != c,
        i < s.len() ==> s[i] == c,
    ensures
        prefix_until(s, c) =~= s.take(i),
    decreases i,
{
    if s.len() > 0 && s[0] != c {
        assert forall|j: int| 0 <= j < i - 1 implies s.drop_first()[j] != c by {
            assert(s[j + 1] != c);
        }
        lemma_prefix_until(s.drop_first(), c, i - 1);
        assert(seq![s[0]] + s.drop_first().take(i - 1) =~= s.take(i));
    }
}

/// The characters of a string before the first occurrence of `c`.
pub fn string_prefix_until(s: &str, c: char) -> (r: String)
    ensures
        r@ == prefix_until(s@, c),
{
    let n = s.unicode_len();
    let mut i: usize = 0;
    while i < n && s.get_char(i) != c
        invariant
            i <= n,
            n == s@.len(),
            forall|j: int| 0 <= j < i ==> s@[j] != c,
        decreases n - i,
    {
        i += 1;
    }
    proof {
        lemma_prefix_until(s@, c, i as int);
    }
    String::from_str(s.substring_char(0, i))
}

/// Relies on `String::from_utf8`: it succeeds exactly on valid UTF-8 input
/// and returns the string whose UTF-8 encoding is that input.
#[verifier::external_body]
pub(crate) fn bytes_to_string(bytes: Vec<u8>) -> (r: Option<String>)
    ensures
        r matches Some(s) ==> encode_utf8(s@) == bytes@,
        r is Some <==> valid_utf8(bytes@),
{
    match String::from_utf8(bytes) {
        Ok(s) => Some(s),
        Err(_) => None,
    }
}

} // verus!
