//! A positioned, big-endian reader over a byte slice: the source every
//! profile parse reads from.

use vstd::prelude::*;
use crate::error::Error;
use crate::sig::Signature;
use crate::text::{latin1, latin1_string};

verus! {

/// The big-endian value of `n` bytes from `i`.
pub open spec fn be_n(d: Seq<u8>, i: int, n: nat) -> nat
    decreases n,
{
    if n == 0 {
        0
    } else {
        be_n(d, i, (n - 1) as nat) * 256 + d[i + n - 1] as nat
    }
}

/// `256` to the power `n`.
pub open spec fn p256(n: nat) -> nat
    decreases n,
{
    if n == 0 {
        1
    } else {
        256 * p256((n - 1) as nat)
    }
}

/// Two's complement reading of an unsigned value modulo `m`.
pub open spec fn signed(v: nat, m: nat) -> int {
    if v >= m / 2 {
        v - m
    } else {
        v as int
    }
}

/// The error a read of `needed` bytes gives when only `got` remain.
pub open spec fn truncated(needed: int, got: int) -> Error {
    Error::Truncated { needed: needed as u32, got: got as u32 }
}

/// The bytes of a text field up to its first NUL.
pub open spec fn until_nul(b: Seq<u8>) -> Seq<u8>
    decreases b.len(),
{
    if b.len() == 0 {
        b
    } else if b[0] == 0 {
        Seq::empty()
    } else {
        seq![b[0]] + until_nul(b.drop_first())
    }
}

/// Reads big-endian values from an in-memory profile.
pub struct MemReader<'a> {
    buf: &'a [u8],
    pos: usize,
}

impl<'a> MemReader<'a> {
    /// The bytes being read.
    pub closed spec fn data(&self) -> Seq<u8> {
        self.buf@
    }

    /// The read position.
    pub closed spec fn at(&self) -> int {
        self.pos as int
    }

    pub closed spec fn wf(&self) -> bool {
        self.pos <= self.buf@.len()
    }

    /// The bytes left after the position.
    pub open spec fn avail(&self) -> int {
        self.data().len() - self.at()
    }

    /// A well-formed reader's position lies within its data.
    pub proof fn lemma_at_bounds(&self)
        requires
            self.wf(),
        ensures
            0 <= self.at() <= self.data().len(),
    {
    }

    pub fn new(buf: &'a [u8]) -> (r: MemReader<'a>)
        ensures
            r.wf(),
            r.data() == buf@,
            r.at() == 0,
    {
        MemReader { buf, pos: 0 }
    }

    /// Fill `out` from the position; too few bytes left is an error that
    /// moves nothing.
    pub fn read_exact(&mut self, out: &mut [u8]) -> (r: Result<(), Error>)
        requires
            old(self).wf(),
        ensures
            final(self).wf(),
            final(self).data() == old(self).data(),
            final(out)@.len() == old(out)@.len(),
            old(self).at() + old(out)@.len() > usize::MAX ==> r == Err::<(), Error>(Error::Range)
                && final(self).at() == old(self).at() && final(out)@ == old(out)@,
            old(self).at() + old(out)@.len() <= usize::MAX && old(out)@.len() > old(self).avail()
                ==> r == Err::<(), Error>(truncated(old(out)@.len() as int, old(self).avail()))
                && final(self).at() == old(self).at() && final(out)@ == old(out)@,
            old(out)@.len() <= old(self).avail() ==> r is Ok && final(self).at() == old(self).at()
                + old(out)@.len() && final(out)@ == old(self).data().subrange(
                old(self).at(),
                old(self).at() + old(out)@.len(),
            ),
    {
        let n = out.len();
        let blen = self.buf.len();
        if n > usize::MAX - self.pos {
            return Err(Error::Range);
        }
        let end = self.pos + n;
        if end > self.buf.len() {
            return Err(Error::Truncated { needed: n as u32, got: (self.buf.len() - self.pos) as u32 });
        }
        let mut i: usize = 0;
        while i < n
            invariant
                i <= n,
                n == out@.len(),
                self.pos + n <= self.buf@.len(),
                self.buf@.len() == blen,
                forall|k: int| 0 <= k < i ==> out@[k] == self.buf@[self.pos + k],
            decreases n - i,
        {
            let v = self.buf[self.pos + i];
            out[i] = v;
            i += 1;
        }
        assert(out@ =~= self.buf@.subrange(self.pos as int, self.pos + n));
        self.pos = end;
        Ok(())
    }

    /// Move to an absolute position; past the end is refused.
    pub fn seek(&mut self, pos: u64) -> (r: Result<(), Error>)
        requires
            old(self).wf(),
        ensures
            final(self).wf(),
            final(self).data() == old(self).data(),
            (pos as usize) > old(self).data().len() ==> r == Err::<(), Error>(Error::Range)
                && final(self).at() == old(self).at(),
            (pos as usize) <= old(self).data().len() ==> r is Ok && final(self).at() == (
            pos as usize),
    {
        let p = pos as usize;
        if p > self.buf.len() {
            return Err(Error::Range);
        }
        self.pos = p;
        Ok(())
    }

    /// The read position.
    pub fn tell(&self) -> (r: u64)
        ensures
            r == self.at() as u64,
            r as int == self.at(),
            self.wf() ==> self.at() <= self.data().len(),
    {
        self.pos as u64
    }

    /// Seek to `off`, then fill `out`.
    pub fn read_at(&mut self, off: u64, out: &mut [u8]) -> (r: Result<(), Error>)
        requires
            old(self).wf(),
        ensures
            final(self).wf(),
            final(self).data() == old(self).data(),
            final(out)@.len() == old(out)@.len(),
            (off as usize) > old(self).data().len() ==> r == Err::<(), Error>(Error::Range),
            (off as usize) <= old(self).data().len() && (off as usize) + old(out)@.len() > usize::MAX
                ==> r == Err::<(), Error>(Error::Range),
            (off as usize) + old(out)@.len() <= usize::MAX && (off as usize) + old(out)@.len() > old(
                self,
            ).data().len() && (off as usize) <= old(self).data().len() ==> r == Err::<(), Error>(
                truncated(old(out)@.len() as int, old(self).data().len() - (off as usize)),
            ),
            (off as usize) + old(out)@.len() <= old(self).data().len() ==> r is Ok && final(self).at() == (off as usize) + old(out)@.len() && final(out)@ == old(self).data().subrange(
                off as usize as int,
                (off as usize) + old(out)@.len(),
            ),
    {
        match self.seek(off) {
            Err(e) => Err(e),
            Ok(()) => self.read_exact(out),
        }
    }

    /// `n` bytes as a big-endian value (`n` at most 4).
    fn read_be(&mut self, n: usize) -> (r: Result<u32, Error>)
        requires
            old(self).wf(),
            1 <= n <= 4,
        ensures
            final(self).wf(),
            final(self).data() == old(self).data(),
            n <= old(self).avail() ==> r == Ok::<u32, Error>(
                be_n(old(self).data(), old(self).at(), n as nat) as u32,
            ) && final(self).at() == old(self).at() + n && be_n(
                old(self).data(),
                old(self).at(),
                n as nat,
            ) < p256(n as nat),
            n > old(self).avail() ==> r == Err::<u32, Error>(truncated(n as int, old(self).avail()))
                && final(self).at() == old(self).at(),
    {
        let blen = self.buf.len();
        if n > blen - self.pos {
            return Err(Error::Truncated { needed: n as u32, got: (blen - self.pos) as u32 });
        }
        proof {
            reveal_with_fuel(p256, 5);
        }
        let mut v: u64 = 0;
        let mut i: usize = 0;
        while i < n
            invariant
                i <= n <= 4,
                self.pos + n <= self.buf@.len(),
                self.buf@.len() == blen,
                v as nat == be_n(self.buf@, self.pos as int, i as nat),
                v < p256(i as nat),
                p256(4) == 0x1_0000_0000,
            decreases n - i,
        {
            proof {
                lemma_p256_mono(i as nat, 3);
            }
            v = v * 256 + self.buf[self.pos + i] as u64;
            i += 1;
        }
        proof {
            lemma_p256_mono(n as nat, 4);
        }
        self.pos = self.pos + n;
        Ok(v as u32)
    }

    pub fn read_u8(&mut self) -> (r: Result<u8, Error>)
        requires
            old(self).wf(),
        ensures
            final(self).wf(),
            final(self).data() == old(self).data(),
            old(self).avail() >= 1 ==> r == Ok::<u8, Error>(old(self).data()[old(self).at()])
                && final(self).at() == old(self).at() + 1,
            old(self).avail() < 1 ==> r == Err::<u8, Error>(truncated(1, old(self).avail()))
                && final(self).at() == old(self).at(),
    {
        proof {
            reveal_with_fuel(be_n, 2);
            reveal_with_fuel(p256, 2);
        }
        match self.read_be(1) {
            Ok(v) => Ok(v as u8),
            Err(e) => Err(e),
        }
    }

    pub fn read_u16(&mut self) -> (r: Result<u16, Error>)
        requires
            old(self).wf(),
        ensures
            final(self).wf(),
            final(self).data() == old(self).data(),
            old(self).avail() >= 2 ==> r == Ok::<u16, Error>(
                be_n(old(self).data(), old(self).at(), 2) as u16,
            ) && final(self).at() == old(self).at() + 2,
            old(self).avail() < 2 ==> r == Err::<u16, Error>(truncated(2, old(self).avail()))
                && final(self).at() == old(self).at(),
    {
        proof {
            reveal_with_fuel(p256, 3);
        }
        match self.read_be(2) {
            Ok(v) => Ok(v as u16),
            Err(e) => Err(e),
        }
    }

    pub fn read_u32(&mut self) -> (r: Result<u32, Error>)
        requires
            old(self).wf(),
        ensures
            final(self).wf(),
            final(self).data() == old(self).data(),
            old(self).avail() >= 4 ==> r == Ok::<u32, Error>(
                be_n(old(self).data(), old(self).at(), 4) as u32,
            ) && final(self).at() == old(self).at() + 4,
            old(self).avail() < 4 ==> r == Err::<u32, Error>(truncated(4, old(self).avail()))
                && final(self).at() == old(self).at(),
            old(self).avail() >= 4 ==> be_n(old(self).data(), old(self).at(), 4) < 0x1_0000_0000,
    {
        proof {
            reveal_with_fuel(p256, 5);
        }
        self.read_be(4)
    }

    pub fn read_u64(&mut self) -> (r: Result<u64, Error>)
        requires
            old(self).wf(),
        ensures
            final(self).wf(),
            final(self).data() == old(self).data(),
            old(self).avail() >= 8 ==> r == Ok::<u64, Error>(
                be_n(old(self).data(), old(self).at(), 8) as u64,
            ) && final(self).at() == old(self).at() + 8,
            old(self).avail() < 8 ==> r == Err::<u64, Error>(truncated(8, old(self).avail()))
                && final(self).at() == old(self).at(),
    {
        if self.buf.len() - self.pos < 8 {
            return Err(Error::Truncated { needed: 8, got: (self.buf.len() - self.pos) as u32 });
        }
        let ghost d = self.data();
        let ghost a = self.at();
        let hi = self.read_be(4);
        let lo = self.read_be(4);
        match (hi, lo) {
            (Ok(h), Ok(l)) => {
                proof {
                    lemma_be_split(d, a, 4, 4);
                    reveal_with_fuel(p256, 5);
                }
                Ok((h as u64) * 0x1_0000_0000 + (l as u64))
            },
            _ => Err(Error::Range),
        }
    }

    pub fn read_i8(&mut self) -> (r: Result<i8, Error>)
        requires
            old(self).wf(),
        ensures
            final(self).wf(),
            final(self).data() == old(self).data(),
            old(self).avail() >= 1 ==> (r matches Ok(v) && v as int == signed(
                be_n(old(self).data(), old(self).at(), 1),
                0x100,
            ) && final(self).at() == old(self).at() + 1),
            old(self).avail() < 1 ==> r == Err::<i8, Error>(truncated(1, old(self).avail()))
                && final(self).at() == old(self).at(),
    {
        proof {
            reveal_with_fuel(p256, 2);
        }
        match self.read_be(1) {
            Ok(v) => {
                if v >= 0x80 {
                    Ok(((v as i32) - 0x100) as i8)
                } else {
                    Ok(v as i8)
                }
            },
            Err(e) => Err(e),
        }
    }

    pub fn read_i16(&mut self) -> (r: Result<i16, Error>)
        requires
            old(self).wf(),
        ensures
            final(self).wf(),
            final(self).data() == old(self).data(),
            old(self).avail() >= 2 ==> (r matches Ok(v) && v as int == signed(
                be_n(old(self).data(), old(self).at(), 2),
                0x1_0000,
            ) && final(self).at() == old(self).at() + 2),
            old(self).avail() < 2 ==> r == Err::<i16, Error>(truncated(2, old(self).avail()))
                && final(self).at() == old(self).at(),
    {
        proof {
            reveal_with_fuel(p256, 3);
        }
        match self.read_be(2) {
            Ok(v) => {
                if v >= 0x8000 {
                    Ok(((v as i32) - 0x1_0000) as i16)
                } else {
                    Ok(v as i16)
                }
            },
            Err(e) => Err(e),
        }
    }

    pub fn read_i32(&mut self) -> (r: Result<i32, Error>)
        requires
            old(self).wf(),
        ensures
            final(self).wf(),
            final(self).data() == old(self).data(),
            old(self).avail() >= 4 ==> (r matches Ok(v) && v as int == signed(
                be_n(old(self).data(), old(self).at(), 4),
                0x1_0000_0000,
            ) && final(self).at() == old(self).at() + 4),
            old(self).avail() < 4 ==> r == Err::<i32, Error>(truncated(4, old(self).avail()))
                && final(self).at() == old(self).at(),
    {
        proof {
            reveal_with_fuel(p256, 5);
        }
        match self.read_be(4) {
            Ok(v) => {
                if v >= 0x8000_0000 {
                    Ok(((v as i64) - 0x1_0000_0000) as i32)
                } else {
                    Ok(v as i32)
                }
            },
            Err(e) => Err(e),
        }
    }
}

impl<'a> MemReader<'a> {
    /// Pass over `n` bytes, with the checks of `read_exact`.
    fn skip_bytes(&mut self, n: usize) -> (r: Result<(), Error>)
        requires
            old(self).wf(),
        ensures
            final(self).wf(),
            final(self).data() == old(self).data(),
            old(self).at() + n > usize::MAX ==> r == Err::<(), Error>(Error::Range)
                && final(self).at() == old(self).at(),
            old(self).at() + n <= usize::MAX && n > old(self).avail() ==> r == Err::<(), Error>(
                truncated(n as int, old(self).avail()),
            ) && final(self).at() == old(self).at(),
            n <= old(self).avail() ==> r is Ok && final(self).at() == old(self).at() + n,
    {
        let blen = self.buf.len();
        if n > usize::MAX - self.pos {
            return Err(Error::Range);
        }
        if self.pos + n > blen {
            return Err(Error::Truncated { needed: n as u32, got: (blen - self.pos) as u32 });
        }
        self.pos = self.pos + n;
        Ok(())
    }

    /// `n` big-endian `u16` values; on a short stream the complete values
    /// are passed over and the error names the partial one.
    pub fn read_u16_array(&mut self, n: usize) -> (r: Result<Vec<u16>, Error>)
        requires
            old(self).wf(),
        ensures
            final(self).wf(),
            final(self).data() == old(self).data(),
            2 * n <= old(self).avail() ==> (r matches Ok(v) && v@.len() == n && (forall|k: int|
                0 <= k < n ==> #[trigger] v@[k] == be_n(old(self).data(), old(self).at() + 2 * k, 2)
                    as u16) && final(self).at() == old(self).at() + 2 * n),
            2 * n > old(self).avail() ==> r == Err::<Vec<u16>, Error>(
                truncated(2, old(self).avail() % 2),
            ) && final(self).at() == old(self).at() + 2 * (old(self).avail() / 2),
    {
        let ghost a0 = self.at();
        let ghost av = self.avail();
        let mut v: Vec<u16> = Vec::new();
        let mut i: usize = 0;
        while i < n
            invariant
                self.wf(),
                self.data() == old(self).data(),
                a0 == old(self).at(),
                av == old(self).avail(),
                i <= n,
                2 * i <= av,
                self.at() == a0 + 2 * i,
                v@.len() == i,
                forall|k: int| 0 <= k < i ==> #[trigger] v@[k] == be_n(self.data(), a0 + 2 * k, 2) as u16,
            decreases n - i,
        {
            match self.read_u16() {
                Ok(x) => v.push(x),
                Err(e) => {
                    assert(av - 2 * i < 2);
                    assert(av / 2 == i as int) by (nonlinear_arith)
                        requires
                            0 <= av - 2 * i < 2,
                            0 <= i,
                    ;
                    assert(av % 2 == av - 2 * i) by (nonlinear_arith)
                        requires
                            0 <= av - 2 * i < 2,
                            0 <= i,
                    ;
                    return Err(e);
                },
            }
            i += 1;
        }
        Ok(v)
    }

    /// `n` big-endian `u32` values; on a short stream the complete values
    /// are passed over and the error names the partial one.
    pub fn read_u32_array(&mut self, n: usize) -> (r: Result<Vec<u32>, Error>)
        requires
            old(self).wf(),
        ensures
            final(self).wf(),
            final(self).data() == old(self).data(),
            4 * n <= old(self).avail() ==> (r matches Ok(v) && v@.len() == n && (forall|k: int|
                0 <= k < n ==> #[trigger] v@[k] == be_n(old(self).data(), old(self).at() + 4 * k, 4)
                    as u32) && final(self).at() == old(self).at() + 4 * n),
            4 * n > old(self).avail() ==> r == Err::<Vec<u32>, Error>(
                truncated(4, old(self).avail() % 4),
            ) && final(self).at() == old(self).at() + 4 * (old(self).avail() / 4),
    {
        let ghost a0 = self.at();
        let ghost av = self.avail();
        let mut v: Vec<u32> = Vec::new();
        let mut i: usize = 0;
        while i < n
            invariant
                self.wf(),
                self.data() == old(self).data(),
                a0 == old(self).at(),
                av == old(self).avail(),
                i <= n,
                4 * i <= av,
                self.at() == a0 + 4 * i,
                v@.len() == i,
                forall|k: int| 0 <= k < i ==> #[trigger] v@[k] == be_n(self.data(), a0 + 4 * k, 4) as u32,
            decreases n - i,
        {
            match self.read_u32() {
                Ok(x) => v.push(x),
                Err(e) => {
                    assert(av / 4 == i as int) by (nonlinear_arith)
                        requires
                            0 <= av - 4 * i < 4,
                            0 <= i,
                    ;
                    assert(av % 4 == av - 4 * i) by (nonlinear_arith)
                        requires
                            0 <= av - 4 * i < 4,
                            0 <= i,
                    ;
                    return Err(e);
                },
            }
            i += 1;
        }
        Ok(v)
    }

    /// A text field of `n` bytes, each read as a Latin-1 character, cut at
    /// its first NUL; the whole field is passed over.
    pub fn read_ascii(&mut self, n: usize) -> (r: Result<String, Error>)
        requires
            old(self).wf(),
        ensures
            final(self).wf(),
            final(self).data() == old(self).data(),
            old(self).at() + n > usize::MAX ==> r == Err::<String, Error>(Error::Range)
                && final(self).at() == old(self).at(),
            old(self).at() + n <= usize::MAX && n > old(self).avail() ==> r == Err::<String, Error>(
                truncated(n as int, old(self).avail()),
            ) && final(self).at() == old(self).at(),
            n <= old(self).avail() ==> (r matches Ok(s) && s@ == latin1(
                until_nul(old(self).data().subrange(old(self).at(), old(self).at() + n)),
            ) && final(self).at() == old(self).at() + n),
    {
        let start = self.pos;
        let blen = self.buf.len();
        match self.skip_bytes(n) {
            Err(e) => {
                return Err(e);
            },
            Ok(()) => {},
        }
        let ghost field = self.buf@.subrange(start as int, start + n);
        let mut bytes: Vec<u8> = Vec::new();
        let mut i: usize = 0;
        while i < n && self.buf[start + i] != 0
            invariant
                i <= n,
                start + n <= self.buf@.len(),
                self.buf@.len() == blen,
                field == self.buf@.subrange(start as int, start + n),
                bytes@ == field.subrange(0, i as int),
                forall|k: int| 0 <= k < i ==> field[k] != 0,
            decreases n - i,
        {
            bytes.push(self.buf[start + i]);
            i += 1;
            assert(bytes@ =~= field.subrange(0, i as int));
        }
        proof {
            lemma_until_nul(field, i as int);
        }
        Ok(latin1_string(bytes.as_slice()))
    }

    /// A big-endian s15.16 fixed-point value, as its raw 32 bits.
    pub fn read_s15f16(&mut self) -> (r: Result<i32, Error>)
        requires
            old(self).wf(),
        ensures
            final(self).wf(),
            final(self).data() == old(self).data(),
            old(self).avail() >= 4 ==> (r matches Ok(v) && v as int == signed(
                be_n(old(self).data(), old(self).at(), 4),
                0x1_0000_0000,
            ) && final(self).at() == old(self).at() + 4),
            old(self).avail() < 4 ==> r == Err::<i32, Error>(truncated(4, old(self).avail()))
                && final(self).at() == old(self).at(),
    {
        self.read_i32()
    }

    /// A tag type's base: its signature, then four reserved bytes.
    pub fn read_type_base(&mut self) -> (r: Result<Signature, Error>)
        requires
            old(self).wf(),
        ensures
            final(self).wf(),
            final(self).data() == old(self).data(),
            old(self).avail() >= 8 ==> r == Ok::<Signature, Error>(
                Signature(be_n(old(self).data(), old(self).at(), 4) as u32),
            ) && final(self).at() == old(self).at() + 8,
            old(self).avail() < 4 ==> r == Err::<Signature, Error>(truncated(4, old(self).avail()))
                && final(self).at() == old(self).at(),
            4 <= old(self).avail() < 8 ==> r == Err::<Signature, Error>(
                truncated(4, old(self).avail() - 4),
            ) && final(self).at() == old(self).at() + 4,
    {
        let sig = match self.read_u32() {
            Ok(v) => v,
            Err(e) => {
                return Err(e);
            },
        };
        match self.read_u32() {
            Ok(_) => Ok(Signature::from_raw(sig)),
            Err(e) => Err(e),
        }
    }

    /// Pass over the padding to the next multiple of four.
    pub fn read_alignment(&mut self) -> (r: Result<(), Error>)
        requires
            old(self).wf(),
        ensures
            final(self).wf(),
            final(self).data() == old(self).data(),
            ({
                let pad = (4 - old(self).at() % 4) % 4;
                &&& pad <= old(self).avail() ==> r is Ok && final(self).at() == old(self).at()
                    + pad
                &&& old(self).at() + pad > usize::MAX ==> r == Err::<(), Error>(Error::Range)
                    && final(self).at() == old(self).at()
                &&& old(self).at() + pad <= usize::MAX && pad > old(self).avail() ==> r == Err::<
                    (),
                    Error,
                >(
                    truncated(pad, old(self).avail()),
                ) && final(self).at() == old(self).at()
            }),
    {
        let pad = (4 - self.pos % 4) % 4;
        if pad == 0 {
            return Ok(());
        }
        self.skip_bytes(pad)
    }
}

/// The text of a field is everything before its first NUL.
pub proof fn lemma_until_nul(field: Seq<u8>, i: int)
    requires
        0 <= i <= field.len(),
        forall|k: int| 0 <= k < i ==> field[k] != 0,
        i == field.len() || field[i] == 0,
    ensures
        until_nul(field) == field.subrange(0, i),
    decreases i,
{
    if i == 0 {
        if field.len() > 0 {
            assert(field[0] == 0);
        }
        assert(field.subrange(0, 0) =~= Seq::<u8>::empty());
        if field.len() == 0 {
            assert(field =~= Seq::<u8>::empty());
        }
    } else {
        let rest = field.drop_first();
        lemma_until_nul(rest, i - 1);
        assert(field.subrange(0, i) =~= seq![field[0]] + rest.subrange(0, i - 1));
    }
}

/// Powers of 256 grow.
pub proof fn lemma_p256_mono(a: nat, b: nat)
    requires
        a <= b,
    ensures
        p256(a) <= p256(b),
        p256(a) >= 1,
    decreases b,
{
    if a < b {
        lemma_p256_mono(a, (b - 1) as nat);
    } else if a > 0 {
        lemma_p256_mono((a - 1) as nat, (a - 1) as nat);
    }
}

/// Splitting a big-endian run into a high and a low part.
pub proof fn lemma_be_split(d: Seq<u8>, i: int, a: nat, b: nat)
    ensures
        be_n(d, i, a + b) == be_n(d, i, a) * p256(b) + be_n(d, i + a, b),
    decreases b,
{
    if b > 0 {
        let b1 = (b - 1) as nat;
        lemma_be_split(d, i, a, b1);
        let p = p256(b1);
        let last = d[i + a + b1] as nat;
        assert((a + b - 1) as nat == a + b1);
        assert(be_n(d, i, a + b) == be_n(d, i, a + b1) * 256 + last);
        assert(be_n(d, i + a, b) == be_n(d, i + a, b1) * 256 + last);
        assert(p256(b) == 256 * p);
        let x = be_n(d, i, a);
        let y = be_n(d, i + a, b1);
        assert((x * p + y) * 256 == x * (256 * p) + y * 256) by (nonlinear_arith);
        assert(be_n(d, i, a + b1) == x * p + y);
        assert(be_n(d, i, a + b) == (x * p + y) * 256 + last);
    } else {
        assert(p256(0) == 1);
        assert(be_n(d, i + a, 0) == 0);
        assert(a + b == a);
    }
}

} // verus!
