//! Localized text tags: the multi-localized Unicode type (`mluc`) and the
//! version 2 text description type (`desc`), read into a list of
//! (language, country, text) entries, with the UTF-16BE decoding they share.

use vstd::prelude::*;
use crate::error::Error;
use crate::io::{be_n, truncated, until_nul, MemReader};
use crate::text::{char_from_u32, latin1, string_push};

verus! {

/// The replacement character a lone surrogate decodes to.
pub open spec fn repl() -> char {
    '\u{FFFD}'
}

/// The big-endian 16-bit code units of a byte string; a trailing odd byte
/// is dropped.
pub open spec fn be_units(b: Seq<u8>) -> Seq<u16> {
    Seq::new(b.len() / 2, |i: int| (b[2 * i] as int * 256 + b[2 * i + 1] as int) as u16)
}

pub open spec fn is_high(u: u16) -> bool {
    0xD800 <= u <= 0xDBFF
}

pub open spec fn is_low(u: u16) -> bool {
    0xDC00 <= u <= 0xDFFF
}

/// UTF-16 decoding in which every unpaired surrogate becomes U+FFFD and the
/// unit after an unpaired high surrogate is decoded on its own.
pub open spec fn utf16_decode(u: Seq<u16>) -> Seq<char>
    decreases u.len(),
{
    if u.len() == 0 {
        Seq::empty()
    } else if !is_high(u[0]) && !is_low(u[0]) {
        seq![u[0] as char] + utf16_decode(u.drop_first())
    } else if is_low(u[0]) {
        seq![repl()] + utf16_decode(u.drop_first())
    } else if u.len() >= 2 && is_low(u[1]) {
        seq![
            (0x10000 + (u[0] - 0xD800) * 1024 + (u[1] - 0xDC00)) as char,
        ] + utf16_decode(u.subrange(2, u.len() as int))
    } else {
        seq![repl()] + utf16_decode(u.drop_first())
    }
}

/// Decode UTF-16BE bytes (see [`utf16_decode`]).
pub fn decode_utf16be(bytes: &[u8]) -> (s: String)
    ensures
        s@ == utf16_decode(be_units(bytes@)),
{
    let blen = bytes.len();
    let n = blen / 2;
    let ghost u = be_units(bytes@);
    let mut out = String::new();
    let mut j: usize = 0;
    assert(u.subrange(0, n as int) =~= u);
    assert(out@ =~= Seq::<char>::empty());
    while j < n
        invariant
            j <= n,
            n == u.len(),
            n == bytes@.len() / 2,
            blen == bytes@.len(),
            u == be_units(bytes@),
            out@ + utf16_decode(u.subrange(j as int, n as int)) == utf16_decode(u),
        decreases n - j,
    {
        let ghost rest = u.subrange(j as int, n as int);
        assert(2 * j + 1 < bytes@.len()) by (nonlinear_arith)
            requires
                j < n,
                n == bytes@.len() / 2,
        ;
        assert(j + 1 < n ==> 2 * j + 3 < bytes@.len()) by (nonlinear_arith)
            requires
                n == bytes@.len() / 2,
        ;
        let b0 = bytes[2 * j];
        let b1 = bytes[2 * j + 1];
        let hi: u16 = (b0 as u16) * 256 + (b1 as u16);
        assert(hi == u[j as int]);
        if hi < 0xD800 || hi > 0xDFFF {
            let c = match char_from_u32(hi as u32) {
                Some(c) => c,
                None => '\u{FFFD}',
            };
            string_push(&mut out, c);
            j += 1;
            assert(rest.drop_first() =~= u.subrange(j as int, n as int));
        } else if hi >= 0xDC00 {
            string_push(&mut out, '\u{FFFD}');
            j += 1;
            assert(rest.drop_first() =~= u.subrange(j as int, n as int));
        } else if j + 1 < n {
            let b2 = bytes[2 * j + 2];
            let b3 = bytes[2 * j + 3];
            let lo: u16 = (b2 as u16) * 256 + (b3 as u16);
            assert(lo == u[j + 1]);
            if lo >= 0xDC00 && lo <= 0xDFFF {
                let v: u32 = 0x10000 + ((hi as u32) - 0xD800) * 1024 + ((lo as u32) - 0xDC00);
                let c = match char_from_u32(v) {
                    Some(c) => c,
                    None => '\u{FFFD}',
                };
                string_push(&mut out, c);
                j += 2;
                assert(rest.subrange(2, rest.len() as int) =~= u.subrange(j as int, n as int));
            } else {
                string_push(&mut out, '\u{FFFD}');
                j += 1;
                assert(rest.drop_first() =~= u.subrange(j as int, n as int));
            }
        } else {
            string_push(&mut out, '\u{FFFD}');
            j += 1;
            assert(rest.drop_first() =~= u.subrange(j as int, n as int));
        }
    }
    assert(u.subrange(n as int, n as int).len() == 0);
    assert(utf16_decode(u.subrange(n as int, n as int)) =~= Seq::<char>::empty());
    assert(out@ =~= utf16_decode(u));
    out
}

/// One localized string: language and country codes and the text.
pub struct MluEntry {
    pub language: [u8; 2],
    pub country: [u8; 2],
    pub text: String,
}

/// A localized text tag.
pub struct Mlu {
    pub entries: Vec<MluEntry>,
}

/// An entry as plain values.
pub open spec fn entry_view(e: MluEntry) -> (Seq<u8>, Seq<u8>, Seq<char>) {
    (e.language@, e.country@, e.text@)
}

/// The entries as plain values.
pub open spec fn mlu_view(m: Mlu) -> Seq<(Seq<u8>, Seq<u8>, Seq<char>)> {
    m.entries@.map_values(|e: MluEntry| entry_view(e))
}

/// Numbers modulo 2^32, as the format's 32-bit size arithmetic wraps.
pub open spec fn wrap32(x: int) -> int {
    x % 0x1_0000_0000
}

/// The record count of an `mluc` body at `p`.
pub open spec fn mlu_count(d: Seq<u8>, p: int) -> int {
    be_n(d, p, 4) as int
}

/// The size of the tag header and record directory, wrapped to 32 bits.
pub open spec fn mlu_hdr(d: Seq<u8>, p: int) -> int {
    wrap32(12 * mlu_count(d, p) + 8)
}

/// Where directory record `k` starts.
pub open spec fn rec_at(p: int, k: int) -> int {
    p + 8 + 12 * k
}

pub open spec fn rec_len(d: Seq<u8>, p: int, k: int) -> int {
    be_n(d, rec_at(p, k) + 4, 4) as int
}

pub open spec fn rec_off(d: Seq<u8>, p: int, k: int) -> int {
    be_n(d, rec_at(p, k) + 8, 4) as int
}

/// Where the text of record `k` begins in the string pool (32-bit wrapping
/// arithmetic).
pub open spec fn rec_begin(d: Seq<u8>, p: int, k: int) -> int {
    wrap32(rec_off(d, p, k) - mlu_hdr(d, p) - 8)
}

/// Why directory record `k` is refused, if it is: a truncated field, an odd
/// offset, an offset inside the header, or a string running past the tag.
pub open spec fn rec_error(d: Seq<u8>, p: int, size: u32, k: int) -> Option<Error> {
    let a = rec_at(p, k);
    let left = d.len() - a;
    if left < 2 {
        Some(truncated(2, left))
    } else if left < 4 {
        Some(truncated(2, left - 2))
    } else if left < 8 {
        Some(truncated(4, left - 4))
    } else if left < 12 {
        Some(truncated(4, left - 8))
    } else {
        let off = rec_off(d, p, k);
        let len = rec_len(d, p, k);
        let end = wrap32(off + len);
        if off % 2 != 0 {
            Some(Error::Corrupt("MLU entry offset is odd"))
        } else if off < wrap32(mlu_hdr(d, p) + 8) {
            Some(Error::Corrupt("MLU entry offset inside header"))
        } else if end < len || end > wrap32(size + 8) {
            Some(Error::Corrupt("MLU entry runs past tag"))
        } else {
            None
        }
    }
}

/// The first refused directory record from `k` on.
pub open spec fn dir_error(d: Seq<u8>, p: int, size: u32, k: int) -> Option<Error>
    decreases mlu_count(d, p) - k,
{
    if k < 0 || k >= mlu_count(d, p) {
        None
    } else {
        match rec_error(d, p, size, k) {
            Some(e) => Some(e),
            None => dir_error(d, p, size, k + 1),
        }
    }
}

/// Where the string pool starts: right after the directory.
pub open spec fn pool_at(d: Seq<u8>, p: int) -> int {
    rec_at(p, mlu_count(d, p))
}

/// The read position of the text of record `k`, as the reader takes it.
pub open spec fn text_at(d: Seq<u8>, p: int, k: int) -> int {
    ((pool_at(d, p) + rec_begin(d, p, k)) as u64 as usize) as int
}

/// Why the text of record `k` cannot be read, if it cannot.
pub open spec fn text_error(d: Seq<u8>, p: int, k: int) -> Option<Error> {
    let len = rec_len(d, p, k);
    let at = text_at(d, p, k);
    if pool_at(d, p) + rec_begin(d, p, k) > u64::MAX {
        Some(Error::Range)
    } else if at > d.len() {
        Some(Error::Range)
    } else if at + len > usize::MAX {
        Some(Error::Range)
    } else if at + len > d.len() {
        Some(truncated(len, d.len() - at))
    } else {
        None
    }
}

/// The first record from `k` on whose text cannot be read.
pub open spec fn pool_error(d: Seq<u8>, p: int, k: int) -> Option<Error>
    decreases mlu_count(d, p) - k,
{
    if k < 0 || k >= mlu_count(d, p) {
        None
    } else {
        match text_error(d, p, k) {
            Some(e) => Some(e),
            None => pool_error(d, p, k + 1),
        }
    }
}

/// The end of the furthest text among the first `k` records, relative to
/// the pool.
pub open spec fn pool_extent(d: Seq<u8>, p: int, k: int) -> int
    decreases k,
{
    if k <= 0 {
        0
    } else {
        let e = rec_begin(d, p, k - 1) + rec_len(d, p, k - 1);
        let m = pool_extent(d, p, k - 1);
        if e > m {
            e
        } else {
            m
        }
    }
}

/// The entry of record `k`: its codes and its decoded text.
pub open spec fn mlu_entry(d: Seq<u8>, p: int, k: int) -> (Seq<u8>, Seq<u8>, Seq<char>) {
    let a = rec_at(p, k);
    let at = text_at(d, p, k);
    (
        d.subrange(a, a + 2),
        d.subrange(a + 2, a + 4),
        utf16_decode(be_units(d.subrange(at, at + rec_len(d, p, k)))),
    )
}

/// Where the reader ends after a successful `mluc` read: past the furthest
/// text of the pool.
pub open spec fn mlu_end(d: Seq<u8>, p: int) -> int {
    pool_at(d, p) + pool_extent(d, p, mlu_count(d, p))
}

/// The result of reading an `mluc` body of `size` bytes at `p`.
pub open spec fn mlu_result(d: Seq<u8>, p: int, size: u32) -> Result<Seq<(Seq<u8>, Seq<u8>, Seq<char>)>, Error> {
    let left = d.len() - p;
    if left < 4 {
        Err(truncated(4, left))
    } else if left < 8 {
        Err(truncated(4, left - 4))
    } else if be_n(d, p + 4, 4) != 12 {
        Err(Error::Corrupt("MLU record length != 12"))
    } else if dir_error(d, p, size, 0) is Some {
        Err(dir_error(d, p, size, 0)->0)
    } else if pool_error(d, p, 0) is Some {
        Err(pool_error(d, p, 0)->0)
    } else if mlu_end(d, p) > u64::MAX || (mlu_end(d, p) as u64 as usize) > d.len() {
        Err(Error::Range)
    } else {
        Ok(Seq::new(mlu_count(d, p) as nat, |k: int| mlu_entry(d, p, k)))
    }
}

fn be_bytes16(v: u16) -> (b: [u8; 2])
    ensures
        b[0] as int * 256 + b[1] as int == v as int,
{
    let hi = (v >> 8u16) as u8;
    let lo = (v & 0xffu16) as u8;
    assert(((v >> 8u16) as u8) as int * 256 + ((v & 0xffu16) as u8) as int == v as int) by (bit_vector);
    [hi, lo]
}

proof fn lemma_digits(x: int, y: int, a: int, b: int)
    requires
        0 <= y < 256,
        0 <= b < 256,
        x * 256 + y == a * 256 + b,
    ensures
        x == a,
        y == b,
{
}

proof fn lemma_be2(d: Seq<u8>, a: int, v: u16, b: [u8; 2])
    requires
        0 <= a,
        a + 2 <= d.len(),
        v == be_n(d, a, 2) as u16,
        b[0] as int * 256 + b[1] as int == v as int,
    ensures
        b@ == d.subrange(a, a + 2),
{
    reveal_with_fuel(be_n, 3);
    assert(be_n(d, a, 2) == d[a] as int * 256 + d[a + 1] as int);
    lemma_digits(b[0] as int, b[1] as int, d[a] as int, d[a + 1] as int);
    assert(b@ =~= d.subrange(a, a + 2));
}

/// One directory record as read: codes, text length, text begin.
type DirRec = ([u8; 2], [u8; 2], u32, u32);

/// Directory record `k` as read, or why it is refused.
fn read_dir_rec(r: &mut MemReader, size: u32, hdr: u32, Ghost(p): Ghost<int>, Ghost(k): Ghost<int>) -> (res: Result<DirRec, Error>)
    requires
        old(r).wf(),
        0 <= p,
        0 <= k,
        old(r).at() == rec_at(p, k),
        hdr as int == mlu_hdr(old(r).data(), p),
    ensures
        final(r).wf(),
        final(r).data() == old(r).data(),
        match rec_error(old(r).data(), p, size, k) {
            Some(e) => res == Err::<DirRec, Error>(e),
            None => res matches Ok(v) && final(r).at() == rec_at(p, k + 1) && {
                let a = rec_at(p, k);
                &&& v.0@ == old(r).data().subrange(a, a + 2)
                &&& v.1@ == old(r).data().subrange(a + 2, a + 4)
                &&& v.2 as int == rec_len(old(r).data(), p, k)
                &&& v.3 as int == rec_begin(old(r).data(), p, k)
            },
        },
{
    let ghost d = r.data();
    let ghost a = rec_at(p, k);
    let language = match r.read_u16() {
        Ok(v) => {
            let b = be_bytes16(v);
            proof {
                lemma_be2(d, a, v, b);
            }
            b
        },
        Err(e) => {
            return Err(e);
        },
    };
    let country = match r.read_u16() {
        Ok(v) => {
            let b = be_bytes16(v);
            proof {
                lemma_be2(d, a + 2, v, b);
            }
            b
        },
        Err(e) => {
            return Err(e);
        },
    };
    let len = match r.read_u32() {
        Ok(v) => v,
        Err(e) => {
            return Err(e);
        },
    };
    let offset = match r.read_u32() {
        Ok(v) => v,
        Err(e) => {
            return Err(e);
        },
    };
    assert(len as int == rec_len(d, p, k));
    assert(offset as int == rec_off(d, p, k));
    assert((offset & 1u32 != 0) == (offset % 2 != 0)) by (bit_vector);
    if offset & 1u32 != 0 {
        return Err(Error::Corrupt("MLU entry offset is odd"));
    }
    if offset < hdr.wrapping_add(8) {
        return Err(Error::Corrupt("MLU entry offset inside header"));
    }
    let end = offset.wrapping_add(len);
    if end < len || end > size.wrapping_add(8) {
        return Err(Error::Corrupt("MLU entry runs past tag"));
    }
    let begin = offset.wrapping_sub(hdr).wrapping_sub(8);
    assert(begin as int == rec_begin(d, p, k));
    Ok((language, country, len, begin))
}

fn read_mlu_dir(r: &mut MemReader, size: u32, count: u32, Ghost(p): Ghost<int>) -> (res: Result<Vec<DirRec>, Error>)
    requires
        old(r).wf(),
        0 <= p,
        old(r).at() == p + 8,
        p + 8 <= old(r).data().len(),
        count as int == mlu_count(old(r).data(), p),
    ensures
        final(r).wf(),
        final(r).data() == old(r).data(),
        match dir_error(old(r).data(), p, size, 0) {
            Some(e) => res == Err::<Vec<DirRec>, Error>(e),
            None => res matches Ok(v) && v@.len() == count && final(r).at() == pool_at(old(r).data(), p)
                && forall|k: int| 0 <= k < count ==> {
                    let a = rec_at(p, k);
                    &&& (#[trigger] v@[k]).0@ == old(r).data().subrange(a, a + 2)
                    &&& v@[k].1@ == old(r).data().subrange(a + 2, a + 4)
                    &&& v@[k].2 as int == rec_len(old(r).data(), p, k)
                    &&& v@[k].3 as int == rec_begin(old(r).data(), p, k)
                },
        },
{
    let ghost d = r.data();
    let hdr = 12u32.wrapping_mul(count).wrapping_add(8);
    assert(hdr as int == mlu_hdr(d, p));
    let mut dir: Vec<DirRec> = Vec::new();
    let mut k: u32 = 0;
    while k < count
        invariant
            k <= count,
            r.wf(),
            d == old(r).data(),
            r.data() == d,
            r.at() == rec_at(p, k as int),
            count as int == mlu_count(d, p),
            hdr as int == mlu_hdr(d, p),
            0 <= p,
            dir_error(d, p, size, 0) == dir_error(d, p, size, k as int),
            dir@.len() == k,
            forall|j: int| 0 <= j < k ==> {
                let a = rec_at(p, j);
                &&& (#[trigger] dir@[j]).0@ == d.subrange(a, a + 2)
                &&& dir@[j].1@ == d.subrange(a + 2, a + 4)
                &&& dir@[j].2 as int == rec_len(d, p, j)
                &&& dir@[j].3 as int == rec_begin(d, p, j)
            },
        decreases count - k,
    {
        let rec = match read_dir_rec(r, size, hdr, Ghost(p), Ghost(k as int)) {
            Ok(v) => v,
            Err(e) => {
                return Err(e);
            },
        };
        let ghost before = dir@;
        dir.push(rec);
        k += 1;
        assert forall|j: int| 0 <= j < k implies {
            let a = rec_at(p, j);
            &&& (#[trigger] dir@[j]).0@ == d.subrange(a, a + 2)
            &&& dir@[j].1@ == d.subrange(a + 2, a + 4)
            &&& dir@[j].2 as int == rec_len(d, p, j)
            &&& dir@[j].3 as int == rec_begin(d, p, j)
        } by {
            if j < k - 1 {
                assert(dir@[j] == before[j]);
            }
        }
    }
    Ok(dir)
}

fn read_mlu_pool(r: &mut MemReader, dir: Vec<DirRec>, Ghost(p): Ghost<int>) -> (res: Result<Mlu, Error>)
    requires
        old(r).wf(),
        0 <= p,
        old(r).at() == pool_at(old(r).data(), p),
        dir@.len() == mlu_count(old(r).data(), p),
        forall|k: int| 0 <= k < dir@.len() ==> {
            let a = rec_at(p, k);
            &&& (#[trigger] dir@[k]).0@ == old(r).data().subrange(a, a + 2)
            &&& dir@[k].1@ == old(r).data().subrange(a + 2, a + 4)
            &&& dir@[k].2 as int == rec_len(old(r).data(), p, k)
            &&& dir@[k].3 as int == rec_begin(old(r).data(), p, k)
        },
    ensures
        final(r).wf(),
        final(r).data() == old(r).data(),
        match pool_error(old(r).data(), p, 0) {
            Some(e) => res == Err::<Mlu, Error>(e),
            None => if mlu_end(old(r).data(), p) > u64::MAX || (mlu_end(old(r).data(), p) as u64 as usize)
                > old(r).data().len() {
                res == Err::<Mlu, Error>(Error::Range)
            } else {
                res matches Ok(m) && mlu_view(m) == Seq::new(
                    mlu_count(old(r).data(), p) as nat,
                    |k: int| mlu_entry(old(r).data(), p, k),
                ) && final(r).at() == (mlu_end(old(r).data(), p) as u64 as usize) as int
            },
        },
{
    let ghost d = r.data();
    let pool_start = r.tell();
    let mut largest: u64 = 0;
    let mut entries: Vec<MluEntry> = Vec::new();
    let n = dir.len();
    let mut k: usize = 0;
    while k < n
        invariant
            k <= n,
            n == dir@.len(),
            n == mlu_count(d, p),
            0 <= p,
            r.wf(),
            r.data() == d,
            d == old(r).data(),
            pool_start as int == pool_at(d, p),
            forall|j: int| 0 <= j < dir@.len() ==> {
                let a = rec_at(p, j);
                &&& (#[trigger] dir@[j]).0@ == d.subrange(a, a + 2)
                &&& dir@[j].1@ == d.subrange(a + 2, a + 4)
                &&& dir@[j].2 as int == rec_len(d, p, j)
                &&& dir@[j].3 as int == rec_begin(d, p, j)
            },
            pool_error(d, p, 0) == pool_error(d, p, k as int),
            largest as int == pool_extent(d, p, k as int),
            entries@.len() == k,
            forall|j: int| 0 <= j < k ==> entry_view(#[trigger] entries@[j]) == mlu_entry(d, p, j),
        decreases n - k,
    {
        let (language, country, len, begin) = dir[k];
        assert(dir@[k as int].2 as int == rec_len(d, p, k as int));
        let off = match pool_start.checked_add(begin as u64) {
            Some(o) => o,
            None => {
                return Err(Error::Range);
            },
        };
        let mut buf: Vec<u8> = vec![0u8; len as usize];
        match r.read_at(off, buf.as_mut_slice()) {
            Err(e) => {
                return Err(e);
            },
            Ok(()) => {},
        }
        assert(text_error(d, p, k as int) is None);
        let text = decode_utf16be(buf.as_slice());
        let e = begin as u64 + len as u64;
        if e > largest {
            largest = e;
        }
        let ghost before = entries@;
        entries.push(MluEntry { language, country, text });
        k += 1;
        assert forall|j: int| 0 <= j < k implies entry_view(#[trigger] entries@[j]) == mlu_entry(d, p, j) by {
            if j < k - 1 {
                assert(entries@[j] == before[j]);
            }
        }
    }
    let end = match pool_start.checked_add(largest) {
        Some(v) => v,
        None => {
            return Err(Error::Range);
        },
    };
    match r.seek(end) {
        Err(e) => {
            return Err(e);
        },
        Ok(()) => {},
    }
    let m = Mlu { entries };
    assert(mlu_view(m) =~= Seq::new(mlu_count(d, p) as nat, |k: int| mlu_entry(d, p, k)));
    Ok(m)
}

/// Read a multi-localized Unicode body of `size` bytes: a record count and
/// record length (which must be 12), one (language, country, length, offset)
/// record per string, then the UTF-16BE string pool. Offsets count from the
/// start of the tag, including its 8-byte type base. The reader is left
/// past the furthest string of the pool.
#[verifier::rlimit(60)]
#[verifier::spinoff_prover]
pub fn read_mlu_value(r: &mut MemReader, size: u32) -> (res: Result<Mlu, Error>)
    requires
        old(r).wf(),
    ensures
        final(r).wf(),
        final(r).data() == old(r).data(),
        match mlu_result(old(r).data(), old(r).at(), size) {
            Ok(v) => res matches Ok(m) && mlu_view(m) == v && final(r).at() == (mlu_end(
                old(r).data(),
                old(r).at(),
            ) as u64 as usize) as int,
            Err(e) => res == Err::<Mlu, Error>(e),
        },
{
    let ghost d = r.data();
    let ghost p = r.at();
    proof {
        r.lemma_at_bounds();
    }
    let count = match r.read_u32() {
        Ok(v) => v,
        Err(e) => {
            return Err(e);
        },
    };
    let rec_len = match r.read_u32() {
        Ok(v) => v,
        Err(e) => {
            return Err(e);
        },
    };
    if rec_len != 12 {
        return Err(Error::Corrupt("MLU record length != 12"));
    }
    let dir = match read_mlu_dir(r, size, count, Ghost(p)) {
        Ok(v) => v,
        Err(e) => {
            return Err(e);
        },
    };
    read_mlu_pool(r, dir, Ghost(p))
}

/// The code units before the first zero unit.
pub open spec fn until_zero(u: Seq<u16>) -> Seq<u16>
    decreases u.len(),
{
    if u.len() == 0 {
        u
    } else if u[0] == 0 {
        Seq::empty()
    } else {
        seq![u[0]] + until_zero(u.drop_first())
    }
}

/// The result of reading a version 2 text description of `size` bytes at
/// `p`: a count and that many ASCII bytes (read as Latin-1 up to the first
/// NUL) under the empty codes, then, when at least 8 more bytes of the tag
/// remain, a Unicode language code and a count of UTF-16BE units: a nonzero
/// count of at most 0x7ffff whose units fit in what remains adds the text
/// up to its first zero unit under the codes 0xffff; anything else keeps the
/// ASCII entry alone.
pub open spec fn desc_result(d: Seq<u8>, p: int, size: u32) -> Result<Seq<(Seq<u8>, Seq<u8>, Seq<char>)>, Error> {
    let left = d.len() - p;
    let n = be_n(d, p, 4) as int;
    let rem = size - 4 - n;
    let q = p + 4 + n;
    if size < 4 {
        Err(Error::Corrupt("textDescription too small for ASCII count"))
    } else if left < 4 {
        Err(truncated(4, left))
    } else if n > 0x7ffff {
        Err(Error::Corrupt("textDescription ASCII count too large"))
    } else if size - 4 < n {
        Err(Error::Corrupt("textDescription ASCII runs past tag"))
    } else if q > usize::MAX {
        Err(Error::Range)
    } else if n > left - 4 {
        Err(truncated(n, left - 4))
    } else {
        let ascii = (seq![0u8, 0u8], seq![0u8, 0u8], latin1(until_nul(d.subrange(p + 4, q))));
        let uc = be_n(d, q + 4, 4) as int;
        if rem < 8 {
            Ok(seq![ascii])
        } else if d.len() - q < 4 {
            Err(truncated(4, d.len() - q))
        } else if d.len() - q < 8 {
            Err(truncated(4, d.len() - q - 4))
        } else if uc == 0 || uc > 0x7ffff || rem - 8 < 2 * uc {
            Ok(seq![ascii])
        } else if q + 8 + 2 * uc > usize::MAX {
            Err(Error::Range)
        } else if 2 * uc > d.len() - (q + 8) {
            Err(truncated(2 * uc, d.len() - (q + 8)))
        } else {
            let units = be_units(d.subrange(q + 8, q + 8 + 2 * uc));
            Ok(seq![ascii, (seq![0xffu8, 0xffu8], seq![0xffu8, 0xffu8], utf16_decode(until_zero(units)))])
        }
    }
}

/// Where the reader ends after a successful text description read.
pub open spec fn desc_end(d: Seq<u8>, p: int, size: u32) -> int {
    let n = be_n(d, p, 4) as int;
    let q = p + 4 + n;
    let rem = size - 4 - n;
    let uc = be_n(d, q + 4, 4) as int;
    if rem < 8 {
        q
    } else if uc == 0 || uc > 0x7ffff || rem - 8 < 2 * uc {
        q + 8
    } else {
        q + 8 + 2 * uc
    }
}

proof fn lemma_until_zero_units(b: Seq<u8>, i: int)
    requires
        0 <= i <= b.len() / 2,
        forall|j: int| 0 <= j < i ==> #[trigger] be_units(b)[j] != 0,
        i == b.len() / 2 || be_units(b)[i] == 0,
    ensures
        until_zero(be_units(b)) == be_units(b.subrange(0, 2 * i)),
    decreases b.len(),
{
    let u = be_units(b);
    if i == 0 {
        if u.len() > 0 {
            assert(u[0] == 0);
        }
        assert(be_units(b.subrange(0, 0)) =~= Seq::<u16>::empty());
        assert(until_zero(u) =~= Seq::<u16>::empty());
    } else {
        let b2 = b.subrange(2, b.len() as int);
        assert(be_units(b2) =~= u.drop_first());
        assert forall|j: int| 0 <= j < i - 1 implies #[trigger] be_units(b2)[j] != 0 by {
            assert(be_units(b2)[j] == u[j + 1]);
        }
        if i - 1 < b2.len() / 2 {
            assert(be_units(b2)[i - 1] == u[i]);
        }
        lemma_until_zero_units(b2, i - 1);
        assert(u[0] != 0);
        assert(until_zero(u) == seq![u[0]] + until_zero(u.drop_first()));
        assert(be_units(b.subrange(0, 2 * i)) =~= seq![u[0]] + be_units(b2.subrange(0, 2 * (i - 1))));
    }
}

/// The prefix of a UTF-16BE byte string before its first zero unit.
fn cut_at_zero_unit(buf: &[u8]) -> (r: Vec<u8>)
    ensures
        be_units(r@) == until_zero(be_units(buf@)),
{
    let blen = buf.len();
    let n = blen / 2;
    let mut i: usize = 0;
    while i < n && !(buf[2 * i] == 0 && buf[2 * i + 1] == 0)
        invariant
            i <= n,
            n == buf@.len() / 2,
            blen == buf@.len(),
            forall|j: int| 0 <= j < i ==> #[trigger] be_units(buf@)[j] != 0,
        decreases n - i,
    {
        assert(be_units(buf@)[i as int] == (buf@[2 * i] as int * 256 + buf@[2 * i + 1] as int) as u16);
        i += 1;
    }
    if i < n {
        assert(be_units(buf@)[i as int] == 0);
    }
    proof {
        lemma_until_zero_units(buf@, i as int);
    }
    assert(2 * i <= blen) by (nonlinear_arith)
        requires
            i <= n,
            n == blen / 2,
    ;
    let cut = 2 * i;
    let mut out: Vec<u8> = Vec::new();
    let mut k: usize = 0;
    while k < cut
        invariant
            k <= cut,
            cut == 2 * i,
            cut <= buf@.len(),
            out@ == buf@.subrange(0, k as int),
        decreases cut - k,
    {
        out.push(buf[k]);
        k += 1;
        assert(out@ =~= buf@.subrange(0, k as int));
    }
    out
}

/// Read a version 2 text description body of `size` bytes (see
/// [`desc_result`]); the optional ScriptCode block that may follow is not
/// read.
#[verifier::rlimit(60)]
#[verifier::spinoff_prover]
pub fn read_text_description_value(r: &mut MemReader, size: u32) -> (res: Result<Mlu, Error>)
    requires
        old(r).wf(),
    ensures
        final(r).wf(),
        final(r).data() == old(r).data(),
        match desc_result(old(r).data(), old(r).at(), size) {
            Ok(v) => res matches Ok(m) && mlu_view(m) == v && final(r).at() == desc_end(
                old(r).data(),
                old(r).at(),
                size,
            ),
            Err(e) => res == Err::<Mlu, Error>(e),
        },
{
    let ghost d = r.data();
    let ghost p = r.at();
    proof {
        r.lemma_at_bounds();
    }
    if size < 4 {
        return Err(Error::Corrupt("textDescription too small for ASCII count"));
    }
    let ascii_count = match r.read_u32() {
        Ok(v) => v,
        Err(e) => {
            return Err(e);
        },
    };
    if ascii_count > 0x7ffff {
        return Err(Error::Corrupt("textDescription ASCII count too large"));
    }
    let mut remaining = size - 4;
    if remaining < ascii_count {
        return Err(Error::Corrupt("textDescription ASCII runs past tag"));
    }
    let ascii = match r.read_ascii(ascii_count as usize) {
        Ok(s) => s,
        Err(e) => {
            return Err(e);
        },
    };
    remaining -= ascii_count;
    let ghost q = p + 4 + ascii_count;
    assert(r.at() == q);
    let mut entries: Vec<MluEntry> = Vec::new();
    entries.push(MluEntry { language: [0u8, 0u8], country: [0u8, 0u8], text: ascii });
    assert([0u8, 0u8]@ =~= seq![0u8, 0u8]);
    if remaining >= 8 {
        let _unicode_code = match r.read_u32() {
            Ok(v) => v,
            Err(e) => {
                return Err(e);
            },
        };
        let unicode_count = match r.read_u32() {
            Ok(v) => v,
            Err(e) => {
                return Err(e);
            },
        };
        remaining -= 8;
        assert(unicode_count as int == be_n(d, q + 4, 4));
        if unicode_count != 0 && unicode_count <= 0x7ffff && remaining >= unicode_count.wrapping_mul(2) {
            let mut buf: Vec<u8> = vec![0u8; (unicode_count as usize) * 2];
            match r.read_exact(buf.as_mut_slice()) {
                Err(e) => {
                    return Err(e);
                },
                Ok(()) => {},
            }
            let cut = cut_at_zero_unit(buf.as_slice());
            let text = decode_utf16be(cut.as_slice());
            entries.push(MluEntry { language: [0xffu8, 0xffu8], country: [0xffu8, 0xffu8], text });
            assert([0xffu8, 0xffu8]@ =~= seq![0xffu8, 0xffu8]);
        }
    }
    let m = Mlu { entries };
    proof {
        match desc_result(d, p, size) {
            Ok(v) => {
                assert(mlu_view(m) =~= v);
            },
            Err(_) => {},
        }
    }
    Ok(m)
}

} // verus!
