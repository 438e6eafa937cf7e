//! Byte/text helpers shared by the parsers and writers: Latin-1 strings,
//! ASCII case folding, and the decimal / hexadecimal / binary renderings the
//! CGATS writer emits.

use vstd::prelude::*;
use vstd::utf8::encode_utf8;

verus! {

/// `String::push`: appends one `char`, so the string's character sequence
/// grows by exactly that `char`.
#[verifier::external_body]
pub(crate) fn string_push(s: &mut String, c: char)
    ensures
        final(s)@ == old(s)@.push(c),
{
    s.push(c)
}

/// `char::from_u32`: the `char` of a Unicode scalar value (at most
/// 0x10FFFF and outside the surrogate range 0xD800..=0xDFFF); `None` for any
/// other value.
#[verifier::external_body]
pub(crate) fn char_from_u32(v: u32) -> (r: Option<char>)
    ensures
        r == (if v <= 0xD7FF || (0xE000 <= v && v <= 0x10FFFF) {
            Some(v as char)
        } else {
            None
        }),
{
    char::from_u32(v)
}

/// The characters a byte string denotes when every byte is read as the
/// Unicode scalar of the same value (Latin-1).
pub open spec fn latin1(b: Seq<u8>) -> Seq<char> {
    b.map_values(|x: u8| x as char)
}

/// Builds the Latin-1 string of `bytes`.
pub fn latin1_string(bytes: &[u8]) -> (s: String)
    ensures
        s@ == latin1(bytes@),
{
    let mut s = String::new();
    let mut i: usize = 0;
    while i < bytes.len()
        invariant
            i <= bytes.len(),
            s@ == latin1(bytes@.subrange(0, i as int)),
        decreases bytes.len() - i,
    {
        let c = bytes[i] as char;
        string_push(&mut s, c);
        i += 1;
        assert(bytes@.subrange(0, i as int) == bytes@.subrange(0, i - 1).push(bytes@[i - 1]));
    }
    assert(bytes@.subrange(0, bytes.len() as int) == bytes@);
    s
}

/// ASCII upper-casing of one byte.
pub open spec fn upper(c: u8) -> u8 {
    if 97 <= c && c <= 122 {
        (c - 32) as u8
    } else {
        c
    }
}

/// ASCII case-insensitive equality of two byte strings.
pub open spec fn ci_eq(a: Seq<u8>, b: Seq<u8>) -> bool {
    &&& a.len() == b.len()
    &&& forall|i: int| 0 <= i < a.len() ==> #[trigger] upper(a[i]) == upper(b[i])
}

/// The UTF-8 bytes of a character sequence.
pub open spec fn tb(s: Seq<char>) -> Seq<u8> {
    encode_utf8(s)
}

pub fn to_upper(c: u8) -> (r: u8)
    ensures
        r == upper(c),
{
    if 97 <= c && c <= 122 {
        c - 32
    } else {
        c
    }
}

pub fn bytes_ci_eq(a: &[u8], b: &[u8]) -> (r: bool)
    ensures
        r == ci_eq(a@, b@),
{
    if a.len() != b.len() {
        return false;
    }
    let mut i: usize = 0;
    while i < a.len()
        invariant
            a@.len() == b@.len(),
            i <= a.len(),
            forall|j: int| 0 <= j < i ==> #[trigger] upper(a@[j]) == upper(b@[j]),
        decreases a.len() - i,
    {
        if to_upper(a[i]) != to_upper(b[i]) {
            return false;
        }
        i += 1;
    }
    true
}

/// `eq_ignore_ascii_case` on two string slices (compared byte by byte).
pub fn str_ci_eq(a: &str, b: &str) -> (r: bool)
    ensures
        r == ci_eq(tb(a@), tb(b@)),
{
    bytes_ci_eq(a.as_bytes(), b.as_bytes())
}

/// UTF-8 encoding distributes over concatenation.
pub proof fn lemma_tb_add(a: Seq<char>, b: Seq<char>)
    ensures
        tb(a + b) == tb(a) + tb(b),
    decreases a.len(),
{
    if a.len() == 0 {
        assert(a + b == b);
        assert(tb(a) == Seq::<u8>::empty());
        assert(tb(a) + tb(b) == tb(b));
    } else {
        assert((a + b).drop_first() == a.drop_first() + b);
        assert((a + b)[0] == a[0]);
        lemma_tb_add(a.drop_first(), b);
        assert(tb(a + b) == vstd::utf8::encode_scalar(a[0] as u32) + tb(a.drop_first() + b));
        assert(tb(a) == vstd::utf8::encode_scalar(a[0] as u32) + tb(a.drop_first()));
    }
}

/// ASCII bytes encode to themselves.
pub proof fn lemma_tb_latin1_ascii(b: Seq<u8>)
    requires
        forall|i: int| 0 <= i < b.len() ==> #[trigger] b[i] < 0x80,
    ensures
        tb(latin1(b)) == b,
    decreases b.len(),
{
    if b.len() == 0 {
        assert(latin1(b) == Seq::<char>::empty());
    } else {
        let l = latin1(b);
        assert(l.drop_first() == latin1(b.drop_first()));
        lemma_tb_latin1_ascii(b.drop_first());
        assert(l[0] == b[0] as char);
        assert((b[0] as char) as u32 == b[0]);
        assert(tb(l) == vstd::utf8::encode_scalar(l[0] as u32) + tb(l.drop_first()));
        let v = l[0] as u32;
        assert(v <= 0x7f ==> (v & 0x7f) as u8 == v as u8) by (bit_vector);
        assert(vstd::utf8::encode_scalar(v) == seq![b[0]]);
        assert(seq![b[0]] + b.drop_first() == b);
    }
}

// ---------------------------------------------------------------- numbers

/// Decimal digits of a natural number (no sign, no leading zeros).
pub open spec fn dec_digits(n: nat) -> Seq<u8>
    decreases n,
{
    if n < 10 {
        seq![(48 + n) as u8]
    } else {
        dec_digits(n / 10).push((48 + n % 10) as u8)
    }
}

/// Decimal rendering of an integer, with a leading `-` when negative
/// (Rust's `to_string` / C `%d`).
pub open spec fn dec_int(n: int) -> Seq<u8> {
    if n < 0 {
        seq![45u8] + dec_digits((-n) as nat)
    } else {
        dec_digits(n as nat)
    }
}

/// Upper-case hexadecimal digits of a natural number (`{:X}`).
pub open spec fn hex_digits(n: nat) -> Seq<u8>
    decreases n,
{
    if n < 16 {
        seq![hex_char(n)]
    } else {
        hex_digits(n / 16).push(hex_char(n % 16))
    }
}

pub open spec fn hex_char(d: nat) -> u8 {
    if d < 10 {
        (48 + d) as u8
    } else {
        (55 + d) as u8
    }
}

/// Binary digits of a natural number (no leading zeros; `0` for zero).
pub open spec fn bin_digits(n: nat) -> Seq<u8>
    decreases n,
{
    if n < 2 {
        seq![(48 + n) as u8]
    } else {
        bin_digits(n / 2).push((48 + n % 2) as u8)
    }
}

pub(crate) fn push_dec(out: &mut Vec<u8>, n: u64)
    ensures
        final(out)@ == old(out)@ + dec_digits(n as nat),
    decreases n,
{
    if n >= 10 {
        push_dec(out, n / 10);
    }
    out.push((48 + n % 10) as u8);
}

fn push_hex(out: &mut Vec<u8>, n: u32)
    ensures
        final(out)@ == old(out)@ + hex_digits(n as nat),
    decreases n,
{
    if n >= 16 {
        push_hex(out, n / 16);
    }
    let d = n % 16;
    if d < 10 {
        out.push((48 + d) as u8);
    } else {
        out.push((55 + d) as u8);
    }
}

fn push_bin(out: &mut Vec<u8>, n: u32)
    ensures
        final(out)@ == old(out)@ + bin_digits(n as nat),
    decreases n,
{
    if n >= 2 {
        push_bin(out, n / 2);
    }
    out.push((48 + n % 2) as u8);
}

/// Decimal text of an unsigned value.
pub fn fmt_u64(n: u64) -> (r: Vec<u8>)
    ensures
        r@ == dec_digits(n as nat),
{
    let mut v: Vec<u8> = Vec::new();
    push_dec(&mut v, n);
    v
}

/// Decimal text of a signed value.
pub fn fmt_i32(n: i32) -> (r: Vec<u8>)
    ensures
        r@ == dec_int(n as int),
{
    let mut v: Vec<u8> = Vec::new();
    if n < 0 {
        v.push(45u8);
        let m: i64 = -(n as i64);
        push_dec(&mut v, m as u64);
    } else {
        push_dec(&mut v, n as u64);
    }
    v
}

/// Upper-case hexadecimal text of an unsigned value.
pub fn fmt_hex_upper(n: u32) -> (r: Vec<u8>)
    ensures
        r@ == hex_digits(n as nat),
{
    let mut v: Vec<u8> = Vec::new();
    push_hex(&mut v, n);
    v
}

/// Binary text of an unsigned value.
pub fn fmt_bin(n: u32) -> (r: Vec<u8>)
    ensures
        r@ == bin_digits(n as nat),
{
    let mut v: Vec<u8> = Vec::new();
    push_bin(&mut v, n);
    v
}

/// Digits are ASCII.
pub proof fn lemma_dec_digits_ascii(n: nat)
    ensures
        forall|i: int| 0 <= i < dec_digits(n).len() ==> 48 <= #[trigger] dec_digits(n)[i] <= 57,
    decreases n,
{
    if n >= 10 {
        lemma_dec_digits_ascii(n / 10);
        let d = dec_digits(n / 10);
        assert(dec_digits(n) == d.push((48 + n % 10) as u8));
        assert forall|i: int| 0 <= i < dec_digits(n).len() implies 48 <= #[trigger] dec_digits(n)[i] <= 57 by {
            if i < d.len() {
                assert(dec_digits(n)[i] == d[i]);
            }
        }
    }
}

/// Appends a byte string to a vector.
pub fn push_all(out: &mut Vec<u8>, s: &[u8])
    ensures
        final(out)@ == old(out)@ + s@,
{
    let mut i: usize = 0;
    while i < s.len()
        invariant
            i <= s.len(),
            out@ == old(out)@ + s@.subrange(0, i as int),
        decreases s.len() - i,
    {
        out.push(s[i]);
        i += 1;
        assert(s@.subrange(0, i as int) == s@.subrange(0, i - 1).push(s@[i - 1]));
    }
    assert(s@.subrange(0, s.len() as int) == s@);
}

} // verus!
