//! Tone curves by their 16-bit table: building one from a table, and the
//! shape tests the optimizer runs on it (linear, descending, degenerated,
//! monotonic).

use vstd::prelude::*;
use crate::gamut::{quantize, quantize_val};

verus! {

/// A tone curve, held as its 16-bit table.
pub struct ToneCurve {
    table16: Vec<u16>,
}

impl View for ToneCurve {
    type V = Seq<u16>;

    closed spec fn view(&self) -> Seq<u16> {
        self.table16@
    }
}

/// How many entries of `s` equal `v`.
pub open spec fn count_of(s: Seq<u16>, v: u16) -> nat
    decreases s.len(),
{
    if s.len() == 0 {
        0
    } else {
        count_of(s.drop_last(), v) + (if s.last() == v {
            1nat
        } else {
            0nat
        })
    }
}

proof fn lemma_count_of_bound(s: Seq<u16>, v: u16)
    ensures
        count_of(s, v) <= s.len(),
    decreases s.len(),
{
    if s.len() > 0 {
        lemma_count_of_bound(s.drop_last(), v);
    }
}

/// Every entry within 15 of the ideal ramp over the same number of entries.
pub open spec fn linear_table(t: Seq<u16>) -> bool {
    forall|i: int| 0 <= i < t.len() ==> -15 <= #[trigger] t[i] - quantize(i, t.len() as int) <= 15
}

/// The first entry above the last.
pub open spec fn descending_table(t: Seq<u16>) -> bool {
    t[0] > t[t.len() - 1]
}

/// Too many entries pinned at 0 or at 0xffff, unless exactly one of each.
pub open spec fn degenerated_table(t: Seq<u16>) -> bool {
    let zeros = count_of(t, 0);
    let poles = count_of(t, 0xffff);
    !(zeros == 1 && poles == 1) && (zeros > t.len() / 20 || poles > t.len() / 20)
}

/// Monotone in the table's overall direction, a rise of up to 2 against it
/// tolerated between neighbours; tables under two entries count as
/// monotonic.
pub open spec fn monotonic_table(t: Seq<u16>) -> bool {
    if t.len() < 2 {
        true
    } else if descending_table(t) {
        forall|i: int| 1 <= i < t.len() ==> #[trigger] t[i] - t[i - 1] <= 2
    } else {
        forall|i: int| 0 <= i < t.len() - 1 ==> #[trigger] t[i] - t[i + 1] <= 2
    }
}

/// A curve whose 16-bit table is `table`, copied as is.
pub fn build_tabulated_16(table: &[u16]) -> (c: ToneCurve)
    ensures
        c@ == table@,
{
    let mut v: Vec<u16> = Vec::new();
    let mut i: usize = 0;
    while i < table.len()
        invariant
            i <= table@.len(),
            v@ == table@.subrange(0, i as int),
        decreases table.len() - i,
    {
        v.push(table[i]);
        i += 1;
        assert(v@ =~= table@.subrange(0, i as int));
    }
    assert(table@.subrange(0, table@.len() as int) =~= table@);
    ToneCurve { table16: v }
}

impl ToneCurve {
    /// A copy of the curve.
    pub fn copy(&self) -> (c: ToneCurve)
        ensures
            c@ == self@,
    {
        build_tabulated_16(self.table16.as_slice())
    }

    /// The 16-bit table.
    pub fn table16(&self) -> (t: &[u16])
        ensures
            t@ == self@,
    {
        self.table16.as_slice()
    }

    /// Whether every entry lies within 15 of the ideal linear ramp.
    pub fn is_linear(&self) -> (r: bool)
        requires
            self@.len() <= u32::MAX,
        ensures
            r == linear_table(self@),
    {
        let n = self.table16.len();
        let mut i: usize = 0;
        while i < n
            invariant
                n == self@.len() <= u32::MAX,
                i <= n,
                forall|k: int| 0 <= k < i ==> -15 <= #[trigger] self@[k] - quantize(k, n as int) <= 15,
            decreases n - i,
        {
            let q = quantize_val(i as u32, n as u32);
            let v = self.table16[i];
            let diff: i32 = v as i32 - q as i32;
            if diff > 15 || diff < -15 {
                assert(!(-15 <= self@[i as int] - quantize(i as int, n as int) <= 15));
                return false;
            }
            i += 1;
        }
        true
    }

    /// Whether the first entry is above the last.
    pub fn is_descending(&self) -> (r: bool)
        requires
            self@.len() > 0,
        ensures
            r == descending_table(self@),
    {
        self.table16[0] > self.table16[self.table16.len() - 1]
    }

    /// Whether too many entries sit at 0 or at 0xffff for the curve to be
    /// worth optimizing (a table with exactly one of each is not).
    pub fn is_degenerated(&self) -> (r: bool)
        ensures
            r == degenerated_table(self@),
    {
        let n = self.table16.len();
        let mut zeros: usize = 0;
        let mut poles: usize = 0;
        let mut i: usize = 0;
        while i < n
            invariant
                n == self@.len(),
                i <= n,
                zeros == count_of(self@.subrange(0, i as int), 0),
                poles == count_of(self@.subrange(0, i as int), 0xffff),
            decreases n - i,
        {
            proof {
                let s = self@.subrange(0, i as int + 1);
                assert(s.drop_last() =~= self@.subrange(0, i as int));
                lemma_count_of_bound(self@.subrange(0, i as int), 0);
                lemma_count_of_bound(self@.subrange(0, i as int), 0xffff);
            }
            let v = self.table16[i];
            if v == 0 {
                zeros += 1;
            }
            if v == 0xffff {
                poles += 1;
            }
            i += 1;
        }
        assert(self@.subrange(0, n as int) =~= self@);
        if zeros == 1 && poles == 1 {
            return false;
        }
        if zeros > n / 20 {
            return true;
        }
        if poles > n / 20 {
            return true;
        }
        false
    }

    /// Whether the table is monotone in its overall direction, allowing a
    /// rise of 2 against it between neighbours.
    pub fn is_monotonic(&self) -> (r: bool)
        ensures
            r == monotonic_table(self@),
    {
        let n = self.table16.len();
        if n < 2 {
            return true;
        }
        if self.is_descending() {
            let mut last: i32 = self.table16[0] as i32;
            let mut i: usize = 1;
            while i < n
                invariant
                    n == self@.len() >= 2,
                    1 <= i <= n,
                    descending_table(self@),
                    last == self@[i - 1],
                    forall|k: int| 1 <= k < i ==> #[trigger] self@[k] - self@[k - 1] <= 2,
                decreases n - i,
            {
                let v = self.table16[i] as i32;
                if v - last > 2 {
                    assert(self@[i as int] - self@[i - 1] > 2);
                    return false;
                }
                last = v;
                i += 1;
            }
        } else {
            let mut last: i32 = self.table16[n - 1] as i32;
            let mut i: usize = n - 1;
            while i > 0
                invariant
                    n == self@.len() >= 2,
                    i <= n - 1,
                    !descending_table(self@),
                    last == self@[i as int],
                    forall|k: int| i <= k < n - 1 ==> #[trigger] self@[k] - self@[k + 1] <= 2,
                decreases i,
            {
                let v = self.table16[i - 1] as i32;
                if v - last > 2 {
                    assert(self@[i - 1] - self@[i as int] > 2);
                    return false;
                }
                last = v;
                i -= 1;
            }
        }
        true
    }
}

} // verus!
