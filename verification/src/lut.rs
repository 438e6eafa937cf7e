//! Size arithmetic of the LUT-based tag readers: the uniform-grid table
//! size `n * a^b` and the hypercube node count of a per-dimension grid, with
//! the overflow and validity guards that make a malformed grid a rejection
//! instead of an overflow.

use vstd::prelude::*;
use crate::curve::{build_tabulated_16, ToneCurve};
use crate::error::Error;
use crate::formatters::{from_8_to_16, w8};
use crate::io::{be_n, signed, truncated, MemReader};
use crate::pipeline::{append_stage, chained, st_in, st_out, ClutStage, ClutV, Pipeline, Stage, StageV};

verus! {

/// `a` raised to the `b`-th power.
pub open spec fn ipow(a: int, b: nat) -> int
    decreases b,
{
    if b == 0 {
        1
    } else {
        a * ipow(a, (b - 1) as nat)
    }
}

proof fn lemma_ipow_mono(a: int, k: nat, b: nat)
    requires
        a >= 1,
        k <= b,
    ensures
        1 <= ipow(a, k) <= ipow(a, b),
    decreases b,
{
    if k < b {
        lemma_ipow_mono(a, k, (b - 1) as nat);
        assert(ipow(a, b) == a * ipow(a, (b - 1) as nat));
        assert(ipow(a, (b - 1) as nat) <= a * ipow(a, (b - 1) as nat)) by (nonlinear_arith)
            requires
                a >= 1,
                ipow(a, (b - 1) as nat) >= 1,
        ;
    } else if b > 0 {
        lemma_ipow_mono(a, (b - 1) as nat, (b - 1) as nat);
        assert(ipow(a, (b - 1) as nat) <= a * ipow(a, (b - 1) as nat)) by (nonlinear_arith)
            requires
                a >= 1,
                ipow(a, (b - 1) as nat) >= 1,
        ;
    }
}

/// The uniform-grid table size `n * a^b`: `Some` exactly when it fits in a
/// `u32` (zero when `a` or `n` is zero), `None` on overflow.
pub fn uipow(n: u32, a: u32, b: u32) -> (r: Option<u32>)
    ensures
        (a == 0 || n == 0) ==> r == Some(0u32),
        (a != 0 && n != 0 && n * ipow(a as int, b as nat) <= u32::MAX) ==> r == Some(
            (n * ipow(a as int, b as nat)) as u32,
        ),
        (a != 0 && n != 0 && n * ipow(a as int, b as nat) > u32::MAX) ==> r is None,
{
    if a == 0 || n == 0 {
        return Some(0);
    }
    let mut rv: u32 = 1;
    let mut k: u32 = 0;
    while k < b
        invariant
            k <= b,
            a >= 1,
            n >= 1,
            rv == ipow(a as int, k as nat),
        decreases b - k,
    {
        match rv.checked_mul(a) {
            Some(v) => {
                rv = v;
            },
            None => {
                proof {
                    assert(ipow(a as int, (k + 1) as nat) == a * ipow(a as int, k as nat));
                    lemma_ipow_mono(a as int, (k + 1) as nat, b as nat);
                    let p = ipow(a as int, b as nat);
                    assert(n * p >= p) by (nonlinear_arith)
                        requires
                            n >= 1,
                            p >= 1,
                    ;
                }
                return None;
            },
        }
        k += 1;
    }
    proof {
        lemma_ipow_mono(a as int, b as nat, b as nat);
    }
    rv.checked_mul(n)
}

/// The product of the grid dimensions from index `i` on.
pub open spec fn prod_from(s: Seq<u32>, i: int) -> int
    decreases s.len() - i,
{
    if i < 0 || i >= s.len() {
        1
    } else {
        s[i] * prod_from(s, i + 1)
    }
}

/// Whether some dimension of the grid is an impossible size (0 or 1).
pub open spec fn has_degenerate_dim(s: Seq<u32>) -> bool {
    exists|j: int| 0 <= j < s.len() && s[j] <= 1
}

/// The hypercube node count of a per-dimension grid: the product of the
/// dimensions, or 0 when a dimension is 0 or 1 or the product exceeds
/// `u32::MAX / 15` (so that a later multiplication by at most 15 output
/// channels cannot overflow).
pub open spec fn cube(s: Seq<u32>) -> int {
    if has_degenerate_dim(s) || prod_from(s, 0) > u32::MAX / 15 {
        0
    } else {
        prod_from(s, 0)
    }
}

pub(crate) proof fn lemma_prod_from_pos(s: Seq<u32>, k: int)
    requires
        0 <= k <= s.len(),
        forall|j: int| k <= j < s.len() ==> s[j] >= 1,
    ensures
        prod_from(s, k) >= 1,
    decreases s.len() - k,
{
    if k < s.len() {
        lemma_prod_from_pos(s, k + 1);
        let p = prod_from(s, k + 1);
        assert(s[k] * p >= 1) by (nonlinear_arith)
            requires
                s[k] >= 1,
                p >= 1,
        ;
    }
}

proof fn lemma_prod_from_ge(s: Seq<u32>, i: int, k: int)
    requires
        0 <= i <= k <= s.len(),
        forall|j: int| i <= j < s.len() ==> s[j] >= 1,
    ensures
        prod_from(s, i) >= prod_from(s, k) >= 1,
    decreases k - i,
{
    lemma_prod_from_pos(s, k);
    if i < k {
        lemma_prod_from_ge(s, i + 1, k);
        let p = prod_from(s, i + 1);
        assert(s[i] * p >= p) by (nonlinear_arith)
            requires
                s[i] >= 1,
                p >= 1,
        ;
    }
}

/// The hypercube node count of a per-dimension grid (see [`cube`]).
#[verifier::spinoff_prover]
#[verifier::rlimit(30)]
pub fn cube_size(dims: &[u32]) -> (r: u32)
    ensures
        r == cube(dims@),
        r != 0 ==> r <= u32::MAX / 15,
{
    let mut rv: u64 = 1;
    let mut i: usize = dims.len();
    while i > 0
        invariant
            i <= dims@.len(),
            rv == prod_from(dims@, i as int),
            1 <= rv <= u32::MAX,
            forall|j: int| i <= j < dims@.len() ==> dims@[j] >= 2,
        decreases i,
    {
        let dim = dims[i - 1] as u64;
        if dim <= 1 {
            assert(has_degenerate_dim(dims@)) by {
                assert(dims@[i - 1] <= 1);
            }
            return 0;
        }
        if rv > (u32::MAX as u64) / dim {
            proof {
                assert(rv * dim > u32::MAX) by (nonlinear_arith)
                    requires
                        rv > (u32::MAX as u64) / dim,
                        dim >= 2,
                ;
                assert(prod_from(dims@, i - 1) == dims@[i - 1] * prod_from(dims@, i as int));
                if !has_degenerate_dim(dims@) {
                    lemma_prod_from_ge(dims@, 0, i - 1);
                }
            }
            return 0;
        }
        proof {
            assert(rv * dim <= u32::MAX) by (nonlinear_arith)
                requires
                    rv <= (u32::MAX as u64) / dim,
                    dim >= 2,
            ;
            assert(rv * dim >= 1) by (nonlinear_arith)
                requires
                    rv >= 1,
                    dim >= 2,
            ;
        }
        rv = rv * dim;
        i -= 1;
    }
    assert(!has_degenerate_dim(dims@));
    if rv > (u32::MAX as u64) / 15 {
        return 0;
    }
    rv as u32
}

/// The entry count `output_channels * cube(grid)` of a granular CLUT, or
/// `None` when it is zero or does not fit in a `u32`.
pub open spec fn granular_entries(output_channels: u32, grid: Seq<u32>) -> Option<u32> {
    let n = output_channels * cube(grid);
    if n == 0 || n > u32::MAX {
        None
    } else {
        Some(n as u32)
    }
}

/// The entry count of a granular CLUT (see [`granular_entries`]).
pub fn granular_clut_entries(output_channels: u32, grid: &[u32]) -> (r: Option<u32>)
    ensures
        r == granular_entries(output_channels, grid@),
{
    let c = cube_size(grid);
    match output_channels.checked_mul(c) {
        None => None,
        Some(n) => {
            if n == 0 {
                None
            } else {
                Some(n)
            }
        },
    }
}

/// A nonzero node count leaves room for up to 15 output channels.
pub proof fn lemma_cube_headroom(dims: Seq<u32>)
    ensures
        cube(dims) != 0 ==> 15 * cube(dims) <= u32::MAX,
{
}

/// With at most 15 output channels the entry count never overflows: it is
/// `None` exactly when there are no output channels or the grid is rejected.
pub proof fn lemma_granular_entries_total(output_channels: u32, grid: Seq<u32>)
    requires
        output_channels <= 15,
    ensures
        granular_entries(output_channels, grid) is None <==> (output_channels == 0 || cube(grid) == 0),
        granular_entries(output_channels, grid) is Some ==> granular_entries(output_channels, grid)
            == Some((output_channels * cube(grid)) as u32),
{
    let c = cube(grid);
    if !has_degenerate_dim(grid) {
        lemma_prod_from_pos(grid, 0);
    }
    assert(0 <= c <= u32::MAX / 15);
    assert(output_channels * c <= u32::MAX) by (nonlinear_arith)
        requires
            output_channels <= 15,
            0 <= c <= u32::MAX / 15,
    ;
    assert(output_channels * c == 0 <==> (output_channels == 0 || c == 0)) by (nonlinear_arith)
        requires
            output_channels >= 0,
            c >= 0,
    ;
}

/// Two to the power `e`.
pub open spec fn p2(e: nat) -> nat
    decreases e,
{
    if e == 0 {
        1
    } else {
        2 * p2((e - 1) as nat)
    }
}

/// The position of the highest set bit of a positive number.
pub open spec fn top_bit(m: nat) -> nat
    decreases m,
{
    if m < 2 {
        0
    } else {
        1 + top_bit(m / 2)
    }
}

proof fn lemma_top_bit(m: nat)
    requires
        m >= 1,
    ensures
        p2(top_bit(m)) <= m < p2(top_bit(m) + 1),
    decreases m,
{
    if m >= 2 {
        lemma_top_bit(m / 2);
        let t = top_bit(m / 2);
        assert(top_bit(m) == t + 1);
        assert(p2(t + 1) == 2 * p2(t));
        assert(p2(t + 2) == 2 * p2(t + 1));
    } else {
        assert(top_bit(m) == 0);
        assert(p2(1) == 2 * p2(0));
    }
}

proof fn lemma_p2_add(a: nat, b: nat)
    ensures
        p2(a + b) == p2(a) * p2(b),
    decreases b,
{
    if b > 0 {
        lemma_p2_add(a, (b - 1) as nat);
        assert(p2(a + b) == 2 * p2((a + b - 1) as nat));
        assert(p2(a) * p2(b) == p2(a) * (2 * p2((b - 1) as nat)));
        assert(p2(a) * (2 * p2((b - 1) as nat)) == 2 * (p2(a) * p2((b - 1) as nat))) by (nonlinear_arith);
    } else {
        assert(p2(0) == 1);
        assert(a + b == a);
    }
}

/// The IEEE-754 double bit pattern of the s15.16 fixed-point value
/// `raw / 65536` (which a double holds exactly).
pub open spec fn fixed_f64_bits(raw: int) -> u64 {
    if raw == 0 {
        0
    } else {
        let m = if raw < 0 {
            -raw
        } else {
            raw
        };
        let e = top_bit(m as nat);
        let sign: int = if raw < 0 {
            0x8000_0000_0000_0000
        } else {
            0
        };
        (sign + (1023 + e - 16) * p2(52) + (m * p2((52 - e) as nat) - p2(52))) as u64
    }
}

/// The double bit pattern of an s15.16 value (see [`fixed_f64_bits`]).
pub fn fixed_to_f64_bits(raw: i32) -> (b: u64)
    ensures
        b == fixed_f64_bits(raw as int),
{
    if raw == 0 {
        return 0;
    }
    let neg = raw < 0;
    let m: u64 = if neg {
        (-(raw as i64)) as u64
    } else {
        raw as u64
    };
    proof {
        lemma_top_bit(m as nat);
    }
    assert(top_bit(m as nat) <= 31) by {
        lemma_top_bit(m as nat);
        if top_bit(m as nat) > 31 {
            lemma_p2_mono(32, top_bit(m as nat));
            lemma_p2_values();
        }
    }
    let mut e: u64 = 0;
    let mut t: u64 = m;
    while t >= 2
        invariant
            1 <= t <= m,
            m <= 0x8000_0000,
            e + top_bit(t as nat) == top_bit(m as nat),
            e <= 31,
            top_bit(m as nat) <= 31,
        decreases t,
    {
        t = t / 2;
        e += 1;
    }
    let mut sh: u64 = m;
    let mut k: u64 = e;
    assert(p2(0) == 1);
    assert((k - e) as nat == 0);
    assert(m * 1 == m);
    assert(sh == m * p2((k - e) as nat));
    proof {
        lemma_top_bit(m as nat);
        assert(p2((e + 1) as nat) == 2 * p2(e as nat));
    }
    while k < 52
        invariant
            e <= k <= 52,
            e == top_bit(m as nat),
            m >= 1,
            sh == m * p2((k - e) as nat),
            sh < p2((k + 1) as nat),
        decreases 52 - k,
    {
        proof {
            lemma_p2_add((k - e) as nat, 1);
            lemma_p2_add((k + 1) as nat, 1);
            lemma_p2_values();
            lemma_p2_mono((k + 1) as nat, 53);
            assert(p2(1) == 2 * p2(0));
            assert(((k - e) + 1) as nat == (k + 1 - e) as nat);
            assert(m * (p2((k - e) as nat) * 2) == (m * p2((k - e) as nat)) * 2) by (nonlinear_arith);
        }
        sh = sh * 2;
        k += 1;
    }
    proof {
        lemma_top_bit(m as nat);
        lemma_p2_add(e as nat, (52 - e) as nat);
        lemma_p2_values();
        assert(m * p2((52 - e) as nat) >= p2(e as nat) * p2((52 - e) as nat)) by (nonlinear_arith)
            requires
                m >= p2(e as nat),
        ;
    }
    let sign: u64 = if neg {
        0x8000_0000_0000_0000
    } else {
        0
    };
    sign + (1023 + e - 16) * 0x10_0000_0000_0000 + (sh - 0x10_0000_0000_0000)
}

pub(crate) proof fn lemma_p2_values()
    ensures
        p2(16) == 0x1_0000,
        p2(32) == 0x1_0000_0000,
        p2(52) == 0x10_0000_0000_0000,
        p2(53) == 0x20_0000_0000_0000,
        p2(54) == 0x40_0000_0000_0000,
{
    lemma_p2_add(16, 16);
    lemma_p2_add(32, 16);
    lemma_p2_add(48, 4);
    lemma_p2_add(52, 1);
    lemma_p2_add(53, 1);
    reveal_with_fuel(p2, 17);
    lemma_p2_add(8, 8);
    lemma_p2_add(4, 4);
    lemma_p2_add(2, 2);
}

pub(crate) proof fn lemma_p2_mono(a: nat, b: nat)
    requires
        a <= b,
    ensures
        p2(a) <= p2(b),
    decreases b,
{
    if a < b {
        lemma_p2_mono(a, (b - 1) as nat);
    }
}

// ------------------------------------------------------------ LUT tags

/// Most channels a LUT tag may have on either side.
pub const CMS_MAXCHANNELS: u32 = 16;
/// Most inputs a CLUT may interpolate over.
pub const MAX_INPUT_DIMENSIONS: u32 = 15;

/// The s15.16 value at `at`.
pub open spec fn s15_at(d: Seq<u8>, at: int) -> int {
    signed(be_n(d, at, 4), 0x1_0000_0000)
}

/// Entry `k` of the row-major 3x3 identity in s15.16.
pub open spec fn id_entry(k: int) -> int {
    if k % 4 == 0 {
        65536
    } else {
        0
    }
}

/// Whether the 3x3 s15.16 matrix at `at` (row-major) is the identity to
/// within 1/65535 in every entry: one s15.16 unit at most.
pub open spec fn near_identity(d: Seq<u8>, at: int) -> bool {
    forall|k: int|
        0 <= k < 9 ==> -1 <= #[trigger] s15_at(d, at + 4 * k) - id_entry(k) <= 1
}

/// The matrix stage of the 3x3 s15.16 matrix at `at`.
pub open spec fn matrix_of(d: Seq<u8>, at: int) -> StageV {
    StageV::Matrix {
        rows: 3,
        cols: 3,
        m: Seq::new(9, |k: int| fixed_f64_bits(s15_at(d, at + 4 * k))),
        offset: None,
    }
}

/// The matrix stage a LUT tag starts with: only for three inputs and a
/// matrix that is not the identity.
pub open spec fn matrix_stages(d: Seq<u8>, at: int, inputs: nat) -> Seq<StageV> {
    if inputs == 3 && !near_identity(d, at) {
        seq![matrix_of(d, at)]
    } else {
        Seq::empty()
    }
}

/// `n` curve tables of 256 8-bit entries at `at`, each widened to 16 bits.
pub open spec fn tables8(d: Seq<u8>, at: int, n: nat) -> Seq<Seq<u16>> {
    Seq::new(n, |c: int| Seq::new(256, |k: int| w8(d[at + 256 * c + k])))
}

/// `n` curve tables of `e` big-endian 16-bit entries at `at`.
pub open spec fn tables16(d: Seq<u8>, at: int, n: nat, e: nat) -> Seq<Seq<u16>> {
    Seq::new(n, |c: int| Seq::new(e, |k: int| be_n(d, at + 2 * (e * c + k), 2) as u16))
}

/// The CLUT stage of a uniform grid of `g` points on each of `i` inputs,
/// `o` outputs, and the given table.
pub open spec fn clut_stage(g: nat, i: nat, o: nat, table: Seq<u16>) -> StageV {
    StageV::Clut(
        ClutV {
            inputs: i,
            outputs: o,
            grid: Seq::new(i, |k: int| g as u32),
            table,
            is_trilinear: false,
            implements_identity: false,
        },
    )
}

/// Read the 3x3 s15.16 matrix and, for three inputs and a matrix that is not
/// the identity, append it as the pipeline's first stage.
fn read_matrix(r: &mut MemReader, lut: &mut Pipeline, input_channels: u32) -> (res: Result<(), Error>)
    requires
        old(r).wf(),
        old(lut).sv().len() == 0,
        old(lut).ic() == input_channels,
        1 <= input_channels <= 16,
    ensures
        final(r).wf(),
        final(r).data() == old(r).data(),
        final(lut).ic() == old(lut).ic(),
        final(lut).oc() == old(lut).oc(),
        old(r).avail() < 36 ==> res == Err::<(), Error>(truncated(4, old(r).avail() % 4)),
        old(r).avail() >= 36 ==> res is Ok && final(r).at() == old(r).at() + 36 && final(lut).sv()
            == matrix_stages(old(r).data(), old(r).at(), input_channels as nat),
{
    let ghost d = r.data();
    let ghost a0 = r.at();
    proof {
        r.lemma_at_bounds();
    }
    let mut raw: Vec<i32> = Vec::new();
    let mut k: usize = 0;
    while k < 9
        invariant
            k <= 9,
            r.wf(),
            r.data() == d,
            d == old(r).data(),
            a0 == old(r).at(),
            4 * k <= old(r).avail(),
            r.at() == a0 + 4 * k,
            raw@.len() == k,
            forall|j: int| 0 <= j < k ==> #[trigger] raw@[j] as int == s15_at(d, a0 + 4 * j),
        decreases 9 - k,
    {
        match r.read_s15f16() {
            Ok(v) => {
                raw.push(v);
            },
            Err(e) => {
                let ghost av = old(r).avail();
                assert(av - 4 * k == av % 4) by (nonlinear_arith)
                    requires
                        4 * k <= av,
                        av - 4 * k < 4,
                ;
                return Err(e);
            },
        }
        k += 1;
    }
    if input_channels == 3 {
        let mut identity = true;
        let mut j: usize = 0;
        while j < 9
            invariant
                j <= 9,
                raw@.len() == 9,
                identity == forall|t: int| 0 <= t < j ==> -1 <= #[trigger] raw@[t] as int - id_entry(t) <= 1,
            decreases 9 - j,
        {
            let target: i64 = if j % 4 == 0 {
                65536
            } else {
                0
            };
            let diff = raw[j] as i64 - target;
            if diff < -1 || diff > 1 {
                identity = false;
            }
            j += 1;
        }
        proof {
            if identity != near_identity(d, a0) {
                if identity {
                    let t = choose|t: int| 0 <= t < 9 && !(-1 <= #[trigger] s15_at(d, a0 + 4 * t) - id_entry(t) <= 1);
                    assert(raw@[t] as int == s15_at(d, a0 + 4 * t));
                } else {
                    let t = choose|t: int| 0 <= t < 9 && !(-1 <= #[trigger] raw@[t] as int - id_entry(t) <= 1);
                    assert(raw@[t] as int == s15_at(d, a0 + 4 * t));
                }
            }
        }
        if !identity {
            let mut m: Vec<u64> = Vec::new();
            let mut j: usize = 0;
            while j < 9
                invariant
                    j <= 9,
                    raw@.len() == 9,
                    m@.len() == j,
                    forall|t: int| 0 <= t < 9 ==> #[trigger] raw@[t] as int == s15_at(d, a0 + 4 * t),
                    forall|t: int| 0 <= t < j ==> #[trigger] m@[t] == fixed_f64_bits(s15_at(d, a0 + 4 * t)),
                decreases 9 - j,
            {
                m.push(fixed_to_f64_bits(raw[j]));
                j += 1;
            }
            let st = Stage::Matrix { rows: 3, cols: 3, m, offset: None };
            assert(st@ == matrix_of(d, a0)) by {
                assert(m@ =~= Seq::new(9, |k: int| fixed_f64_bits(s15_at(d, a0 + 4 * k))));
            }
            match lut.insert_stage_at_end(st) {
                Ok(()) => {},
                Err(e) => {
                    return Err(e);
                },
            }
            assert(lut.sv() =~= matrix_stages(d, a0, input_channels as nat));
            return Ok(());
        }
    }
    assert(lut.sv() =~= matrix_stages(d, a0, input_channels as nat));
    Ok(())
}

/// Read `n_channels` curve tables of 256 8-bit entries (each widened to
/// 16 bits) and append them as a tone-curve stage.
fn read_8bit_tables(r: &mut MemReader, lut: &mut Pipeline, n_channels: u32) -> (res: Result<(), Error>)
    requires
        old(r).wf(),
    ensures
        final(r).wf(),
        final(r).data() == old(r).data(),
        final(lut).ic() == old(lut).ic(),
        final(lut).oc() == old(lut).oc(),
        (n_channels > CMS_MAXCHANNELS || n_channels == 0) ==> res == Err::<(), Error>(
            Error::Corrupt("LUT8 channel count out of range"),
        ),
        (1 <= n_channels <= CMS_MAXCHANNELS && old(r).avail() < 256 * n_channels) ==> res == Err::<
            (),
            Error,
        >(truncated(1, 0)),
        (1 <= n_channels <= CMS_MAXCHANNELS && old(r).avail() >= 256 * n_channels) ==> final(r).at()
            == old(r).at() + 256 * n_channels && match append_stage(
            old(lut).sv(),
            old(lut).ic() as nat,
            StageV::ToneCurves(tables8(old(r).data(), old(r).at(), n_channels as nat)),
        ) {
            Ok(v) => res is Ok && final(lut).sv() == v,
            Err(e) => res == Err::<(), Error>(e) && final(lut).sv() == old(lut).sv(),
        },
{
    if n_channels > CMS_MAXCHANNELS || n_channels == 0 {
        return Err(Error::Corrupt("LUT8 channel count out of range"));
    }
    let ghost d = r.data();
    let ghost a0 = r.at();
    proof {
        r.lemma_at_bounds();
    }
    let mut curves: Vec<ToneCurve> = Vec::new();
    let mut c: u32 = 0;
    while c < n_channels
        invariant
            c <= n_channels <= CMS_MAXCHANNELS,
            r.wf(),
            r.data() == d,
            d == old(r).data(),
            a0 == old(r).at(),
            256 * c <= old(r).avail(),
            r.at() == a0 + 256 * c,
            curves@.len() == c,
            forall|j: int| 0 <= j < c ==> #[trigger] curves@[j]@ == tables8(d, a0, n_channels as nat)[j],
        decreases n_channels - c,
    {
        let mut table: Vec<u16> = Vec::new();
        let mut k: usize = 0;
        while k < 256
            invariant
                k <= 256,
                c < n_channels,
                1 <= n_channels <= CMS_MAXCHANNELS,
                r.wf(),
                r.data() == d,
                256 * c + k <= old(r).avail(),
                r.at() == a0 + 256 * c + k,
                a0 == old(r).at(),
                d == old(r).data(),
                table@.len() == k,
                forall|j: int| 0 <= j < k ==> #[trigger] table@[j] == w8(d[a0 + 256 * c + j]),
            decreases 256 - k,
        {
            match r.read_u8() {
                Ok(b) => {
                    table.push(from_8_to_16(b));
                },
                Err(e) => {
                    return Err(e);
                },
            }
            k += 1;
        }
        assert(table@ =~= tables8(d, a0, n_channels as nat)[c as int]);
        curves.push(build_tabulated_16(table.as_slice()));
        c += 1;
    }
    let st = Stage::ToneCurves(curves);
    assert(st@ == StageV::ToneCurves(tables8(d, a0, n_channels as nat))) by {
        assert(crate::pipeline::curves_view(curves@) =~= tables8(d, a0, n_channels as nat));
    }
    lut.insert_stage_at_end(st)
}

proof fn lemma_tables16_row(d: Seq<u8>, a0: int, n: nat, e: nat, c: int, t: Seq<u16>)
    requires
        0 <= c < n,
        t.len() == e,
        forall|k: int| 0 <= k < e ==> #[trigger] t[k] == be_n(d, a0 + 2 * e * c + 2 * k, 2) as u16,
    ensures
        t == tables16(d, a0, n, e)[c],
{
    assert forall|k: int| 0 <= k < e implies t[k] == be_n(d, a0 + 2 * (e * c + k), 2) as u16 by {
        assert(a0 + 2 * e * c + 2 * k == a0 + 2 * (e * c + k)) by (nonlinear_arith);
    }
    assert(t =~= tables16(d, a0, n, e)[c]);
}

proof fn lemma_table_trunc(av: int, e: int, c: int, n: int)
    requires
        0 <= c < n,
        0 <= e,
        2 * e * c <= av,
        av - 2 * e * c < 2 * e,
    ensures
        (av - 2 * e * c) % 2 == av % 2,
        av < 2 * e * n,
{
    let x = e * c;
    assert(2 * e * c == 2 * x) by (nonlinear_arith)
        requires
            x == e * c,
    ;
    assert(2 * e * n >= 2 * e * (c + 1)) by (nonlinear_arith)
        requires
            c + 1 <= n,
            e >= 0,
    ;
    assert(2 * e * (c + 1) == 2 * e * c + 2 * e) by (nonlinear_arith);
}

/// Read `n_channels` curve tables of `n_entries` 16-bit entries and append
/// them as a tone-curve stage; no entries means no curves, a single entry
/// is refused.
#[verifier::rlimit(40)]
fn read_16bit_tables(r: &mut MemReader, lut: &mut Pipeline, n_channels: u32, n_entries: u32) -> (res: Result<(), Error>)
    requires
        old(r).wf(),
        n_entries <= 0x7fff,
    ensures
        final(r).wf(),
        final(r).data() == old(r).data(),
        final(lut).ic() == old(lut).ic(),
        final(lut).oc() == old(lut).oc(),
        n_entries == 0 ==> res is Ok && final(lut).sv() == old(lut).sv() && final(r).at() == old(r).at(),
        n_entries == 1 ==> res == Err::<(), Error>(Error::Corrupt("LUT16 table needs >= 2 entries")),
        (n_entries >= 2 && n_channels > CMS_MAXCHANNELS) ==> res == Err::<(), Error>(
            Error::Corrupt("LUT16 channel count out of range"),
        ),
        (n_entries >= 2 && n_channels <= CMS_MAXCHANNELS && old(r).avail() < 2 * n_entries * n_channels)
            ==> res == Err::<(), Error>(truncated(2, old(r).avail() % 2)),
        (n_entries >= 2 && n_channels <= CMS_MAXCHANNELS && old(r).avail() >= 2 * n_entries * n_channels)
            ==> final(r).at() == old(r).at() + 2 * n_entries * n_channels && match append_stage(
            old(lut).sv(),
            old(lut).ic() as nat,
            StageV::ToneCurves(tables16(old(r).data(), old(r).at(), n_channels as nat, n_entries as nat)),
        ) {
            Ok(v) => res is Ok && final(lut).sv() == v,
            Err(e) => res == Err::<(), Error>(e) && final(lut).sv() == old(lut).sv(),
        },
{
    if n_entries == 0 {
        return Ok(());
    }
    if n_entries < 2 {
        return Err(Error::Corrupt("LUT16 table needs >= 2 entries"));
    }
    if n_channels > CMS_MAXCHANNELS {
        return Err(Error::Corrupt("LUT16 channel count out of range"));
    }
    let ghost d = r.data();
    let ghost a0 = r.at();
    let ghost av = r.avail();
    proof {
        r.lemma_at_bounds();
    }
    let mut curves: Vec<ToneCurve> = Vec::new();
    let mut c: u32 = 0;
    while c < n_channels
        invariant
            c <= n_channels <= CMS_MAXCHANNELS,
            2 <= n_entries <= 0x7fff,
            r.wf(),
            r.data() == d,
            d == old(r).data(),
            a0 == old(r).at(),
            av == old(r).avail(),
            2 * n_entries * c <= av,
            r.at() == a0 + 2 * n_entries * c,
            curves@.len() == c,
            forall|j: int| 0 <= j < c ==> #[trigger] curves@[j]@ == tables16(d, a0, n_channels as nat, n_entries as nat)[j],
        decreases n_channels - c,
    {
        proof {
            assert(2 * n_entries * (c + 1) == 2 * n_entries * c + 2 * n_entries) by (nonlinear_arith);
        }
        match r.read_u16_array(n_entries as usize) {
            Ok(t) => {
                proof {
                    lemma_tables16_row(d, a0, n_channels as nat, n_entries as nat, c as int, t@);
                }
                curves.push(build_tabulated_16(t.as_slice()));
            },
            Err(e) => {
                proof {
                    lemma_table_trunc(av, n_entries as int, c as int, n_channels as int);
                }
                return Err(e);
            },
        }
        c += 1;
    }
    let st = Stage::ToneCurves(curves);
    assert(st@ == StageV::ToneCurves(tables16(d, a0, n_channels as nat, n_entries as nat))) by {
        assert(crate::pipeline::curves_view(curves@) =~= tables16(d, a0, n_channels as nat, n_entries as nat));
    }
    lut.insert_stage_at_end(st)
}

/// The entry count `o * g^i` of a uniform CLUT, when it fits a `u32`.
pub open spec fn clut_entries(o: u32, g: u32, i: u32) -> Option<int> {
    if g == 0 || o == 0 {
        Some(0)
    } else if o * ipow(g as int, i as nat) <= u32::MAX {
        Some(o * ipow(g as int, i as nat))
    } else {
        None
    }
}

/// The table of `n` CLUT entries at `at`: 8-bit entries widened, or
/// big-endian 16-bit entries.
pub open spec fn clut_table(d: Seq<u8>, at: int, n: nat, wide: bool) -> Seq<u16> {
    if wide {
        Seq::new(n, |k: int| be_n(d, at + 2 * k, 2) as u16)
    } else {
        Seq::new(n, |k: int| w8(d[at + k]))
    }
}

/// Read a CLUT table of `n` entries: 8-bit entries widened, or 16-bit
/// entries when `wide`.
fn read_table(r: &mut MemReader, n: u32, wide: bool) -> (res: Result<Vec<u16>, Error>)
    requires
        old(r).wf(),
    ensures
        final(r).wf(),
        final(r).data() == old(r).data(),
        wide && old(r).avail() < 2 * n ==> res == Err::<Vec<u16>, Error>(truncated(2, old(r).avail() % 2)),
        !wide && old(r).avail() < n ==> res == Err::<Vec<u16>, Error>(truncated(1, 0)),
        (if wide {
            old(r).avail() >= 2 * n
        } else {
            old(r).avail() >= n
        }) ==> (res matches Ok(t) && t@ == clut_table(old(r).data(), old(r).at(), n as nat, wide)
            && final(r).at() == old(r).at() + (if wide {
            2 * n
        } else {
            n as int
        })),
{
    let ghost d = r.data();
    let ghost a0 = r.at();
    let ghost av = r.avail();
    proof {
        r.lemma_at_bounds();
    }
    let mut table: Vec<u16> = Vec::new();
    let mut k: u32 = 0;
    while k < n
        invariant
            k <= n,
            r.wf(),
            r.data() == d,
            d == old(r).data(),
            a0 == old(r).at(),
            av == old(r).avail(),
            (if wide {
                2 * k
            } else {
                k as int
            }) <= av,
            r.at() == a0 + (if wide {
                2 * k
            } else {
                k as int
            }),
            table@.len() == k,
            forall|j: int| 0 <= j < k ==> #[trigger] table@[j] == clut_table(d, a0, n as nat, wide)[j],
        decreases n - k,
    {
        if wide {
            match r.read_u16() {
                Ok(v) => {
                    table.push(v);
                },
                Err(e) => {
                    assert((av - 2 * k) % 2 == av % 2);
                    return Err(e);
                },
            }
        } else {
            match r.read_u8() {
                Ok(b) => {
                    table.push(from_8_to_16(b));
                },
                Err(e) => {
                    return Err(e);
                },
            }
        }
        k += 1;
    }
    assert(table@ =~= clut_table(d, a0, n as nat, wide));
    Ok(table)
}

/// Read a CLUT of `clut_points` grid points per input (8-bit entries widened,
/// or 16-bit entries when `wide`) and append it; an empty table adds
/// nothing, more than `MAX_INPUT_DIMENSIONS` inputs are refused.
#[verifier::rlimit(40)]
fn read_clut(
    r: &mut MemReader,
    lut: &mut Pipeline,
    clut_points: u32,
    input_channels: u32,
    output_channels: u32,
    wide: bool,
) -> (res: Result<(), Error>)
    requires
        old(r).wf(),
    ensures
        final(r).wf(),
        final(r).data() == old(r).data(),
        final(lut).ic() == old(lut).ic(),
        final(lut).oc() == old(lut).oc(),
        input_channels > MAX_INPUT_DIMENSIONS ==> res == Err::<(), Error>(Error::Range),
        input_channels <= MAX_INPUT_DIMENSIONS ==> match clut_entries(output_channels, clut_points, input_channels) {
            None => res == Err::<(), Error>(Error::Corrupt("LUT CLUT table size overflow")),
            Some(n) => if n == 0 {
                res is Ok && final(lut).sv() == old(lut).sv() && final(r).at() == old(r).at()
            } else if wide && old(r).avail() < 2 * n {
                res == Err::<(), Error>(truncated(2, old(r).avail() % 2))
            } else if !wide && old(r).avail() < n {
                res == Err::<(), Error>(truncated(1, 0))
            } else {
                final(r).at() == old(r).at() + (if wide {
                    2 * n
                } else {
                    n
                }) && match append_stage(
                    old(lut).sv(),
                    old(lut).ic() as nat,
                    clut_stage(
                        clut_points as nat,
                        input_channels as nat,
                        output_channels as nat,
                        clut_table(old(r).data(), old(r).at(), n as nat, wide),
                    ),
                ) {
                    Ok(v) => res is Ok && final(lut).sv() == v,
                    Err(e) => res == Err::<(), Error>(e) && final(lut).sv() == old(lut).sv(),
                }
            },
        },
{
    if input_channels > MAX_INPUT_DIMENSIONS {
        return Err(Error::Range);
    }
    proof {
        if clut_points != 0 {
            lemma_ipow_mono(clut_points as int, 0, input_channels as nat);
            assert(output_channels * ipow(clut_points as int, input_channels as nat) >= 0) by (nonlinear_arith)
                requires
                    ipow(clut_points as int, input_channels as nat) >= 1,
            ;
        }
    }
    let n_tab = match uipow(output_channels, clut_points, input_channels) {
        Some(n) => n,
        None => {
            return Err(Error::Corrupt("LUT CLUT table size overflow"));
        },
    };
    if n_tab == 0 {
        return Ok(());
    }
    let ghost d = r.data();
    let ghost a0 = r.at();
    let table = match read_table(r, n_tab, wide) {
        Ok(t) => t,
        Err(e) => {
            return Err(e);
        },
    };
    let mut grid: Vec<u32> = Vec::new();
    let mut j: u32 = 0;
    while j < input_channels
        invariant
            j <= input_channels,
            grid@.len() == j,
            forall|t: int| 0 <= t < j ==> #[trigger] grid@[t] == clut_points,
        decreases input_channels - j,
    {
        grid.push(clut_points);
        j += 1;
    }
    let st = Stage::Clut(
        ClutStage {
            inputs: input_channels as usize,
            outputs: output_channels as usize,
            grid,
            table,
            is_trilinear: false,
            implements_identity: false,
        },
    );
    assert(st@ == clut_stage(
        clut_points as nat,
        input_channels as nat,
        output_channels as nat,
        clut_table(d, a0, n_tab as nat, wide),
    )) by {
        assert(grid@ =~= Seq::new(input_channels as nat, |t: int| clut_points as nat as u32));
    }
    lut.insert_stage_at_end(st)
}

/// The widths and stages of an 8-bit LUT tag body at `p`, or why it is
/// refused: four bytes (input channels, output channels, grid points,
/// padding), the 3x3 matrix, the input curves (256 bytes each), the CLUT
/// (`outputs * points^inputs` bytes) and the output curves.
pub open spec fn lut8_result(d: Seq<u8>, p: int) -> Result<(nat, nat, Seq<StageV>), Error> {
    let av = d.len() - p;
    let i = d[p] as nat;
    let o = d[p + 1] as nat;
    let g = d[p + 2] as nat;
    let q1 = p + 40;
    let q2 = q1 + 256 * i;
    let ce = clut_entries(o as u32, g as u32, i as u32);
    if av < 4 {
        Err(truncated(1, 0))
    } else if g == 1 {
        Err(Error::Corrupt("LUT8 CLUTpoints == 1"))
    } else if i == 0 || i > 16 {
        Err(Error::Corrupt("LUT8 input channels out of range"))
    } else if o == 0 || o > 16 {
        Err(Error::Corrupt("LUT8 output channels out of range"))
    } else if av - 4 < 36 {
        Err(truncated(4, (av - 4) % 4))
    } else if d.len() - q1 < 256 * i {
        Err(truncated(1, 0))
    } else if i > 15 {
        Err(Error::Range)
    } else if ce is None {
        Err(Error::Corrupt("LUT CLUT table size overflow"))
    } else {
        let n = ce->0;
        let q3 = q2 + n;
        if n > 0 && d.len() - q2 < n {
            Err(truncated(1, 0))
        } else if d.len() - q3 < 256 * o {
            Err(truncated(1, 0))
        } else if n == 0 && i != o {
            Err(Error::Unsupported("stage input width does not chain with the previous stage"))
        } else {
            let cl = if n == 0 {
                Seq::empty()
            } else {
                seq![clut_stage(g, i, o, clut_table(d, q2, n as nat, false))]
            };
            Ok(
                (
                    i,
                    o,
                    matrix_stages(d, p + 4, i) + seq![StageV::ToneCurves(tables8(d, q1, i))] + cl
                        + seq![StageV::ToneCurves(tables8(d, q3, o))],
                ),
            )
        }
    }
}

/// The stages an 8-bit LUT tag body gives line up from its input width, and
/// the last one writes its output width.
pub proof fn lemma_lut8_chained(d: Seq<u8>, p: int)
    ensures
        lut8_result(d, p) matches Ok((i, o, st)) ==> chained(i, st) && st.len() > 0 && st_out(st.last()) == o,
{
    if let Ok((i, o, st)) = lut8_result(d, p) {
        let ms = matrix_stages(d, p + 4, i);
        let q1 = p + 40;
        let q2 = q1 + 256 * i;
        let n = clut_entries(o as u32, d[p + 2] as nat as u32, i as u32)->0;
        let q3 = q2 + n;
        let cl = if n == 0 {
            Seq::<StageV>::empty()
        } else {
            seq![clut_stage(d[p + 2] as nat, i, o, clut_table(d, q2, n as nat, false))]
        };
        let inc = StageV::ToneCurves(tables8(d, q1, i));
        let outc = StageV::ToneCurves(tables8(d, q3, o));
        assert(st == ms + seq![inc] + cl + seq![outc]);
        assert(st_in(inc) == i && st_out(inc) == i);
        assert(st_in(outc) == o && st_out(outc) == o);
        assert forall|k: int| 0 <= k < st.len() implies #[trigger] st_in(st[k]) == (if k == 0 {
            i
        } else {
            st_out(st[k - 1])
        }) by {
            if ms.len() == 1 {
                assert(ms[0] == matrix_of(d, p + 4));
            }
            if k < ms.len() {
                assert(st[k] == ms[k]);
            } else if k == ms.len() {
                assert(st[k] == inc);
                if k > 0 {
                    assert(st[k - 1] == ms[0]);
                }
            } else if k < ms.len() + 1 + cl.len() {
                assert(st[k] == cl[0]);
                assert(st[k - 1] == inc);
            } else {
                assert(st[k] == outc);
                if cl.len() == 1 {
                    assert(st[k - 1] == cl[0]);
                } else {
                    assert(st[k - 1] == inc);
                }
            }
        }
        assert(st.last() == outc);
    }
}

/// Where the reader ends after an 8-bit LUT tag body.
pub open spec fn lut8_end(d: Seq<u8>, p: int) -> int {
    let i = d[p] as nat;
    let o = d[p + 1] as nat;
    let g = d[p + 2] as nat;
    p + 40 + 256 * i + clut_entries(o as u32, g as u32, i as u32)->0 + 256 * o
}

/// Read an 8-bit LUT tag body into a pipeline (see [`lut8_result`]).
#[verifier::rlimit(80)]
#[verifier::spinoff_prover]
pub fn read_lut8(r: &mut MemReader, _size: u32) -> (res: Result<Pipeline, Error>)
    requires
        old(r).wf(),
    ensures
        final(r).wf(),
        final(r).data() == old(r).data(),
        match lut8_result(old(r).data(), old(r).at()) {
            Ok((i, o, stages)) => res matches Ok(pl) && pl.ic() == i && pl.oc() == o && pl.sv() == stages
                && final(r).at() == lut8_end(old(r).data(), old(r).at()),
            Err(e) => res == Err::<Pipeline, Error>(e),
        },
{
    let ghost d = r.data();
    let ghost p = r.at();
    proof {
        r.lemma_at_bounds();
    }
    let input_channels = match r.read_u8() {
        Ok(v) => v as u32,
        Err(e) => {
            return Err(e);
        },
    };
    let output_channels = match r.read_u8() {
        Ok(v) => v as u32,
        Err(e) => {
            return Err(e);
        },
    };
    let clut_points = match r.read_u8() {
        Ok(v) => v as u32,
        Err(e) => {
            return Err(e);
        },
    };
    match r.read_u8() {
        Ok(_) => {},
        Err(e) => {
            return Err(e);
        },
    }
    if clut_points == 1 {
        return Err(Error::Corrupt("LUT8 CLUTpoints == 1"));
    }
    if input_channels == 0 || input_channels > CMS_MAXCHANNELS {
        return Err(Error::Corrupt("LUT8 input channels out of range"));
    }
    if output_channels == 0 || output_channels > CMS_MAXCHANNELS {
        return Err(Error::Corrupt("LUT8 output channels out of range"));
    }
    let mut lut = Pipeline::new(input_channels as usize, output_channels as usize);
    match read_matrix(r, &mut lut, input_channels) {
        Ok(()) => {},
        Err(e) => {
            return Err(e);
        },
    }
    let ghost ms = lut.sv();
    let ghost q1 = r.at();
    match read_8bit_tables(r, &mut lut, input_channels) {
        Ok(()) => {},
        Err(e) => {
            return Err(e);
        },
    }
    let ghost s1 = lut.sv();
    let ghost q2 = r.at();
    match read_clut(r, &mut lut, clut_points, input_channels, output_channels, false) {
        Ok(()) => {},
        Err(e) => {
            return Err(e);
        },
    }
    let ghost s2 = lut.sv();
    let ghost q3 = r.at();
    match read_8bit_tables(r, &mut lut, output_channels) {
        Ok(()) => {},
        Err(e) => {
            return Err(e);
        },
    }
    proof {
        let i = input_channels as nat;
        let o = output_channels as nat;
        let n = clut_entries(output_channels, clut_points, input_channels)->0;
        assert(q1 == p + 40);
        assert(q2 == p + 40 + 256 * i);
        if n == 0 {
            assert(s2 == s1);
        }
        match lut8_result(d, p) {
            Ok((_, _, stages)) => {
                assert(lut.sv() =~= stages);
            },
            Err(_) => {},
        }
    }
    Ok(lut)
}


/// The widths and stages of a 16-bit LUT tag body at `p`, or why it is
/// refused: four bytes (input channels, output channels, grid points,
/// padding), the 3x3 matrix, the input and output table lengths (16 bits
/// each), the input curves, the CLUT (`outputs * points^inputs` 16-bit
/// entries) and the output curves.
pub open spec fn lut16_result(d: Seq<u8>, p: int) -> Result<(nat, nat, Seq<StageV>), Error> {
    let av = d.len() - p;
    let i = d[p] as nat;
    let o = d[p + 1] as nat;
    let g = d[p + 2] as nat;
    let ie = be_n(d, p + 40, 2);
    let oe = be_n(d, p + 42, 2);
    let q1 = p + 44;
    let q2 = q1 + 2 * ie * i;
    let ce = clut_entries(o as u32, g as u32, i as u32);
    if av < 4 {
        Err(truncated(1, 0))
    } else if i == 0 || i > 16 {
        Err(Error::Corrupt("LUT16 input channels out of range"))
    } else if o == 0 || o > 16 {
        Err(Error::Corrupt("LUT16 output channels out of range"))
    } else if av - 4 < 36 {
        Err(truncated(4, (av - 4) % 4))
    } else if av - 40 < 2 {
        Err(truncated(2, av - 40))
    } else if av - 42 < 2 {
        Err(truncated(2, av - 42))
    } else if ie > 0x7fff || oe > 0x7fff {
        Err(Error::Corrupt("LUT16 entry count > 0x7FFF"))
    } else if g == 1 {
        Err(Error::Corrupt("LUT16 CLUTpoints == 1"))
    } else if ie == 1 {
        Err(Error::Corrupt("LUT16 table needs >= 2 entries"))
    } else if ie >= 2 && d.len() - q1 < 2 * ie * i {
        Err(truncated(2, (d.len() - q1) % 2))
    } else if i > 15 {
        Err(Error::Range)
    } else if ce is None {
        Err(Error::Corrupt("LUT CLUT table size overflow"))
    } else {
        let n = ce->0;
        let q3 = q2 + 2 * n;
        if n > 0 && d.len() - q2 < 2 * n {
            Err(truncated(2, (d.len() - q2) % 2))
        } else if oe == 1 {
            Err(Error::Corrupt("LUT16 table needs >= 2 entries"))
        } else if oe >= 2 && d.len() - q3 < 2 * oe * o {
            Err(truncated(2, (d.len() - q3) % 2))
        } else if oe >= 2 && n == 0 && i != o {
            Err(Error::Unsupported("stage input width does not chain with the previous stage"))
        } else {
            let inc = if ie == 0 {
                Seq::empty()
            } else {
                seq![StageV::ToneCurves(tables16(d, q1, i, ie))]
            };
            let cl = if n == 0 {
                Seq::empty()
            } else {
                seq![clut_stage(g, i, o, clut_table(d, q2, n as nat, true))]
            };
            let outc = if oe == 0 {
                Seq::empty()
            } else {
                seq![StageV::ToneCurves(tables16(d, q3, o, oe))]
            };
            Ok((i, o, matrix_stages(d, p + 4, i) + inc + cl + outc))
        }
    }
}

/// The stages a 16-bit LUT tag body gives line up from its input width.
pub proof fn lemma_lut16_chained(d: Seq<u8>, p: int)
    ensures
        lut16_result(d, p) matches Ok((i, o, st)) ==> chained(i, st),
{
    if let Ok((i, o, st)) = lut16_result(d, p) {
        let g = d[p + 2] as nat;
        let ie = be_n(d, p + 40, 2);
        let oe = be_n(d, p + 42, 2);
        let ms = matrix_stages(d, p + 4, i);
        let q1 = p + 44;
        let q2 = q1 + 2 * ie * i;
        let n = clut_entries(o as u32, g as u32, i as u32)->0;
        let q3 = q2 + 2 * n;
        let inc = if ie == 0 {
            Seq::<StageV>::empty()
        } else {
            seq![StageV::ToneCurves(tables16(d, q1, i, ie))]
        };
        let cl = if n == 0 {
            Seq::<StageV>::empty()
        } else {
            seq![clut_stage(g, i, o, clut_table(d, q2, n as nat, true))]
        };
        let outc = if oe == 0 {
            Seq::<StageV>::empty()
        } else {
            seq![StageV::ToneCurves(tables16(d, q3, o, oe))]
        };
        assert(st == ms + inc + cl + outc);
        let a = ms + inc;
        let b = a + cl;
        if ms.len() == 1 {
            assert(ms[0] == matrix_of(d, p + 4));
        }
        // Every stage before the output curves writes `i` channels, and the
        // table stage, when there is one, writes `o`.
        assert forall|k: int| 0 <= k < st.len() implies #[trigger] st_in(st[k]) == (if k == 0 {
            i
        } else {
            st_out(st[k - 1])
        }) by {
            if k < ms.len() {
                assert(st[k] == ms[k]);
            } else if k < a.len() {
                assert(st[k] == inc[0]);
                if k > 0 {
                    assert(st[k - 1] == ms[0]);
                }
            } else if k < b.len() {
                assert(st[k] == cl[0]);
                if k > 0 {
                    if inc.len() == 1 {
                        assert(st[k - 1] == inc[0]);
                    } else {
                        assert(st[k - 1] == ms[0]);
                    }
                }
            } else {
                assert(st[k] == outc[0]);
                if k > 0 {
                    if cl.len() == 1 {
                        assert(st[k - 1] == cl[0]);
                    } else if inc.len() == 1 {
                        assert(st[k - 1] == inc[0]);
                    } else {
                        assert(st[k - 1] == ms[0]);
                    }
                }
            }
        }
    }
}

/// Where the reader ends after a 16-bit LUT tag body.
pub open spec fn lut16_end(d: Seq<u8>, p: int) -> int {
    let i = d[p] as nat;
    let o = d[p + 1] as nat;
    let g = d[p + 2] as nat;
    let ie = be_n(d, p + 40, 2);
    let oe = be_n(d, p + 42, 2);
    p + 44 + 2 * ie * i + 2 * clut_entries(o as u32, g as u32, i as u32)->0 + 2 * oe * o
}

/// Read a 16-bit LUT tag body into a pipeline (see [`lut16_result`]).
#[verifier::rlimit(100)]
#[verifier::spinoff_prover]
pub fn read_lut16(r: &mut MemReader, _size: u32) -> (res: Result<Pipeline, Error>)
    requires
        old(r).wf(),
    ensures
        final(r).wf(),
        final(r).data() == old(r).data(),
        match lut16_result(old(r).data(), old(r).at()) {
            Ok((i, o, stages)) => res matches Ok(pl) && pl.ic() == i && pl.oc() == o && pl.sv() == stages
                && final(r).at() == lut16_end(old(r).data(), old(r).at()),
            Err(e) => res == Err::<Pipeline, Error>(e),
        },
{
    let ghost d = r.data();
    let ghost p = r.at();
    proof {
        r.lemma_at_bounds();
    }
    let input_channels = match r.read_u8() {
        Ok(v) => v as u32,
        Err(e) => {
            return Err(e);
        },
    };
    let output_channels = match r.read_u8() {
        Ok(v) => v as u32,
        Err(e) => {
            return Err(e);
        },
    };
    let clut_points = match r.read_u8() {
        Ok(v) => v as u32,
        Err(e) => {
            return Err(e);
        },
    };
    match r.read_u8() {
        Ok(_) => {},
        Err(e) => {
            return Err(e);
        },
    }
    if input_channels == 0 || input_channels > CMS_MAXCHANNELS {
        return Err(Error::Corrupt("LUT16 input channels out of range"));
    }
    if output_channels == 0 || output_channels > CMS_MAXCHANNELS {
        return Err(Error::Corrupt("LUT16 output channels out of range"));
    }
    let mut lut = Pipeline::new(input_channels as usize, output_channels as usize);
    match read_matrix(r, &mut lut, input_channels) {
        Ok(()) => {},
        Err(e) => {
            return Err(e);
        },
    }
    let ghost ms = lut.sv();
    let input_entries = match r.read_u16() {
        Ok(v) => v as u32,
        Err(e) => {
            return Err(e);
        },
    };
    let output_entries = match r.read_u16() {
        Ok(v) => v as u32,
        Err(e) => {
            return Err(e);
        },
    };
    proof {
        reveal_with_fuel(be_n, 3);
        assert(input_entries == be_n(d, p + 40, 2));
        assert(output_entries == be_n(d, p + 42, 2));
    }
    if input_entries > 0x7FFF || output_entries > 0x7FFF {
        return Err(Error::Corrupt("LUT16 entry count > 0x7FFF"));
    }
    if clut_points == 1 {
        return Err(Error::Corrupt("LUT16 CLUTpoints == 1"));
    }
    let ghost q1 = r.at();
    proof {
        assert(q1 == p + 44);
        assert(2 * input_entries * input_channels == 2 * be_n(d, p + 40, 2) * (d[p] as nat));
    }
    match read_16bit_tables(r, &mut lut, input_channels, input_entries) {
        Ok(()) => {},
        Err(e) => {
            return Err(e);
        },
    }
    let ghost s1 = lut.sv();
    let ghost q2 = r.at();
    proof {
        let ie = be_n(d, p + 40, 2);
        let i = d[p] as nat;
        if input_entries == 0 {
            assert(2 * ie * i == 0) by (nonlinear_arith)
                requires
                    ie == 0,
            ;
        }
        assert(q2 == p + 44 + 2 * ie * i);
    }
    match read_clut(r, &mut lut, clut_points, input_channels, output_channels, true) {
        Ok(()) => {},
        Err(e) => {
            return Err(e);
        },
    }
    let ghost s2 = lut.sv();
    let ghost q3 = r.at();
    match read_16bit_tables(r, &mut lut, output_channels, output_entries) {
        Ok(()) => {},
        Err(e) => {
            return Err(e);
        },
    }
    proof {
        let i = input_channels as nat;
        let n = clut_entries(output_channels, clut_points, input_channels)->0;
        assert(q1 == p + 44);
        if input_entries == 0 {
            assert(s1 == ms);
        }
        let oe = be_n(d, p + 42, 2);
        let o = d[p + 1] as nat;
        if n == 0 {
            assert(s2 == s1);
        }
        if output_entries == 0 {
            assert(2 * oe * o == 0) by (nonlinear_arith)
                requires
                    oe == 0,
            ;
            assert(lut.sv() == s2);
        }
        assert(q3 == q2 + 2 * n);
        assert(r.at() == q3 + 2 * oe * o);
        match lut16_result(d, p) {
            Ok((_, _, stages)) => {
                assert(lut.sv() =~= stages);
            },
            Err(_) => {},
        }
    }
    Ok(lut)
}

// ------------------------------------------------------------ A2B / B2A parts

/// `n` s15.16 values at `at`, as the bit patterns of the `f64`s they stand
/// for.
pub open spec fn fixed_bits_at(d: Seq<u8>, at: int, n: nat) -> Seq<u64> {
    Seq::new(n, |k: int| fixed_f64_bits(s15_at(d, at + 4 * k)))
}

/// Read `n` s15.16 values as `f64` bit patterns.
fn read_fixed_bits(r: &mut MemReader, n: usize) -> (res: Result<Vec<u64>, Error>)
    requires
        old(r).wf(),
    ensures
        final(r).wf(),
        final(r).data() == old(r).data(),
        old(r).avail() < 4 * n ==> res == Err::<Vec<u64>, Error>(truncated(4, old(r).avail() % 4)),
        old(r).avail() >= 4 * n ==> (res matches Ok(v) && v@ == fixed_bits_at(old(r).data(), old(r).at(), n as nat)
            && final(r).at() == old(r).at() + 4 * n),
{
    let ghost d = r.data();
    let ghost a0 = r.at();
    let ghost av = r.avail();
    proof {
        r.lemma_at_bounds();
    }
    let mut v: Vec<u64> = Vec::new();
    let mut k: usize = 0;
    while k < n
        invariant
            k <= n,
            r.wf(),
            r.data() == d,
            d == old(r).data(),
            a0 == old(r).at(),
            av == old(r).avail(),
            4 * k <= av,
            r.at() == a0 + 4 * k,
            v@.len() == k,
            forall|j: int| 0 <= j < k ==> #[trigger] v@[j] == fixed_f64_bits(s15_at(d, a0 + 4 * j)),
        decreases n - k,
    {
        match r.read_s15f16() {
            Ok(x) => {
                v.push(fixed_to_f64_bits(x));
            },
            Err(e) => {
                assert(av - 4 * k == av % 4) by (nonlinear_arith)
                    requires
                        4 * k <= av,
                        av - 4 * k < 4,
                ;
                return Err(e);
            },
        }
        k += 1;
    }
    assert(v@ =~= fixed_bits_at(d, a0, n as nat));
    Ok(v)
}

/// The matrix stage with offset stored at `q`: nine s15.16 coefficients,
/// then three s15.16 offsets.
pub open spec fn matrix_offset_at(d: Seq<u8>, q: int) -> StageV {
    StageV::Matrix { rows: 3, cols: 3, m: fixed_bits_at(d, q, 9), offset: Some(fixed_bits_at(d, q + 36, 3)) }
}

/// Seek to `offset`, read a 3x3 s15.16 matrix and its three s15.16
/// offsets, and append them as a matrix stage.
pub fn read_matrix_with_offset(r: &mut MemReader, lut: &mut Pipeline, offset: u64) -> (res: Result<(), Error>)
    requires
        old(r).wf(),
    ensures
        final(r).wf(),
        final(r).data() == old(r).data(),
        final(lut).ic() == old(lut).ic(),
        final(lut).oc() == old(lut).oc(),
        ({
            let d = old(r).data();
            let q = offset as usize as int;
            if q > d.len() {
                res == Err::<(), Error>(Error::Range) && final(lut).sv() == old(lut).sv()
            } else if d.len() - q < 48 {
                res == Err::<(), Error>(truncated(4, (d.len() - q) % 4)) && final(lut).sv() == old(lut).sv()
            } else {
                final(r).at() == q + 48 && match append_stage(old(lut).sv(), old(lut).ic() as nat, matrix_offset_at(d, q)) {
                    Ok(v) => res is Ok && final(lut).sv() == v,
                    Err(e) => res == Err::<(), Error>(e) && final(lut).sv() == old(lut).sv(),
                }
            }
        }),
{
    let ghost d = r.data();
    r.seek(offset)?;
    let ghost q = r.at();
    let m = read_fixed_bits(r, 9)?;
    proof {
        assert((d.len() - q - 36) % 4 == (d.len() - q) % 4);
    }
    let off = read_fixed_bits(r, 3)?;
    let st = Stage::Matrix { rows: 3, cols: 3, m, offset: Some(off) };
    assert(st@ == matrix_offset_at(d, q));
    lut.insert_stage_at_end(st)
}

/// The shared header of the A2B and B2A tags at `p`: input channels, output
/// channels, two bytes of padding, then the offsets of the B curves, the
/// matrix, the M curves, the CLUT and the A curves. Channel counts run from
/// 1 to 15.
pub open spec fn a2b_header(d: Seq<u8>, p: int) -> Result<(u32, u32, Seq<u32>), Error> {
    let av = d.len() - p;
    let i = d[p];
    let o = d[p + 1];
    if av < 2 {
        Err(truncated(1, 0))
    } else if av < 4 {
        Err(truncated(2, av - 2))
    } else if av < 24 {
        Err(truncated(4, (av - 4) % 4))
    } else if i == 0 || i >= 16 {
        Err(Error::Corrupt("AtoB/BtoA input channels out of range"))
    } else if o == 0 || o >= 16 {
        Err(Error::Corrupt("AtoB/BtoA output channels out of range"))
    } else {
        Ok((i as u32, o as u32, Seq::new(5, |k: int| be_n(d, p + 4 + 4 * k, 4) as u32)))
    }
}

/// Read the shared header of the A2B and B2A tags (see [`a2b_header`]).
pub fn read_a2b_b2a_header(r: &mut MemReader) -> (res: Result<(u32, u32, [u32; 5]), Error>)
    requires
        old(r).wf(),
    ensures
        final(r).wf(),
        final(r).data() == old(r).data(),
        match a2b_header(old(r).data(), old(r).at()) {
            Ok((i, o, offs)) => res matches Ok((ri, ro, ra)) && ri == i && ro == o && ra@ == offs
                && final(r).at() == old(r).at() + 24,
            Err(e) => res == Err::<(u32, u32, [u32; 5]), Error>(e),
        },
{
    let ghost d = r.data();
    let ghost p = r.at();
    proof {
        r.lemma_at_bounds();
    }
    let input_channels = r.read_u8()? as u32;
    let output_channels = r.read_u8()? as u32;
    let _pad = r.read_u16()?;
    let v = r.read_u32_array(5)?;
    let offs: [u32; 5] = [v[0], v[1], v[2], v[3], v[4]];
    if input_channels == 0 || input_channels >= CMS_MAXCHANNELS {
        return Err(Error::Corrupt("AtoB/BtoA input channels out of range"));
    }
    if output_channels == 0 || output_channels >= CMS_MAXCHANNELS {
        return Err(Error::Corrupt("AtoB/BtoA output channels out of range"));
    }
    assert(offs@ =~= Seq::new(5, |k: int| be_n(d, p + 4 + 4 * k, 4) as u32));
    Ok((input_channels, output_channels, offs))
}

/// Why the sixteen grid-point bytes from `q + k` on are refused, if they
/// are: a missing byte, or a grid of one point.
pub open spec fn grid_scan(d: Seq<u8>, q: int, k: nat) -> Option<Error>
    decreases 16 - k,
{
    if k >= 16 {
        None
    } else if q + k >= d.len() {
        Some(truncated(1, 0))
    } else if d[q + k] == 1 {
        Some(Error::Corrupt("AtoB/BtoA CLUT grid point == 1"))
    } else {
        grid_scan(d, q, k + 1)
    }
}

/// The grid of the first `ic` of the sixteen grid-point bytes at `q`.
pub open spec fn granular_grid(d: Seq<u8>, q: int, ic: nat) -> Seq<u32> {
    Seq::new(if ic < 16 {
        ic
    } else {
        16
    }, |k: int| d[q + k] as u32)
}

/// The CLUT stage stored at `q` for `ic` inputs and `oc` outputs, or why it
/// is refused: sixteen grid-point bytes (one per possible input), a
/// precision byte (1 for 8-bit entries, 2 for 16-bit ones), three bytes of
/// padding, and the table of `oc` times the grid's node count entries.
pub open spec fn clut_at(d: Seq<u8>, q: int, ic: u32, oc: u32) -> Result<StageV, Error> {
    let grid = granular_grid(d, q, ic as nat);
    let prec = d[q + 16];
    let t = q + 20;
    if q > d.len() {
        Err(Error::Range)
    } else if grid_scan(d, q, 0) is Some {
        Err(grid_scan(d, q, 0)->0)
    } else if d.len() - q < 20 {
        Err(truncated(1, 0))
    } else {
        match granular_entries(oc, grid) {
            None => Err(Error::Corrupt("AtoB/BtoA CLUT table size invalid")),
            Some(n) => if prec == 1 && d.len() - t < n {
                Err(truncated(1, 0))
            } else if prec == 2 && d.len() - t < 2 * n {
                Err(truncated(2, (d.len() - t) % 2))
            } else if prec != 1 && prec != 2 {
                Err(Error::Corrupt("AtoB/BtoA CLUT unknown precision"))
            } else {
                Ok(
                    StageV::Clut(
                        ClutV {
                            inputs: ic as nat,
                            outputs: oc as nat,
                            grid,
                            table: clut_table(d, t, n as nat, prec == 2),
                            is_trilinear: false,
                            implements_identity: false,
                        },
                    ),
                )
            },
        }
    }
}

/// Where the reader ends after the CLUT stored at `q`.
pub open spec fn clut_at_end(d: Seq<u8>, q: int, ic: u32, oc: u32) -> int {
    let n = granular_entries(oc, granular_grid(d, q, ic as nat))->0;
    q + 20 + (if d[q + 16] == 2 {
        2 * n
    } else {
        n as int
    })
}

/// Seek to `offset` and read a CLUT with its own grid size per input (see
/// [`clut_at`]), then append it.
#[verifier::rlimit(40)]
pub fn read_clut_at(
    r: &mut MemReader,
    lut: &mut Pipeline,
    offset: u64,
    input_channels: u32,
    output_channels: u32,
) -> (res: Result<(), Error>)
    requires
        old(r).wf(),
    ensures
        final(r).wf(),
        final(r).data() == old(r).data(),
        final(lut).ic() == old(lut).ic(),
        final(lut).oc() == old(lut).oc(),
        match clut_at(old(r).data(), offset as usize as int, input_channels, output_channels) {
            Err(e) => res == Err::<(), Error>(e) && final(lut).sv() == old(lut).sv(),
            Ok(st) => final(r).at() == clut_at_end(old(r).data(), offset as usize as int, input_channels, output_channels)
                && match append_stage(old(lut).sv(), old(lut).ic() as nat, st) {
                Ok(v) => res is Ok && final(lut).sv() == v,
                Err(e) => res == Err::<(), Error>(e) && final(lut).sv() == old(lut).sv(),
            },
        },
{
    let ghost d = r.data();
    r.seek(offset)?;
    let ghost q = r.at();
    proof {
        r.lemma_at_bounds();
    }
    let mut points: Vec<u8> = Vec::new();
    let mut k: usize = 0;
    while k < 16
        invariant
            k <= 16,
            r.wf(),
            r.data() == d,
            d == old(r).data(),
            q == offset as usize as int,
            q <= d.len(),
            r.at() == q + k,
            q + k <= d.len(),
            points@ =~= d.subrange(q, q + k),
            grid_scan(d, q, 0) == grid_scan(d, q, k as nat),
        decreases 16 - k,
    {
        let g = r.read_u8()?;
        if g == 1 {
            return Err(Error::Corrupt("AtoB/BtoA CLUT grid point == 1"));
        }
        points.push(g);
        k += 1;
    }
    let precision = r.read_u8()?;
    let _pad0 = r.read_u8()?;
    let _pad1 = r.read_u8()?;
    let _pad2 = r.read_u8()?;
    let mut grid: Vec<u32> = Vec::new();
    let mut j: usize = 0;
    while j < 16 && j < input_channels as usize
        invariant
            j <= 16,
            j <= input_channels,
            0 <= q,
            q + 16 <= d.len(),
            points@.len() == 16,
            points@ =~= d.subrange(q, q + 16),
            grid@.len() == j,
            forall|t: int| 0 <= t < j ==> #[trigger] grid@[t] == d[q + t] as u32,
        decreases 16 - j,
    {
        grid.push(points[j] as u32);
        j += 1;
    }
    assert(grid@ =~= granular_grid(d, q, input_channels as nat));
    let n_entries = match granular_clut_entries(output_channels, grid.as_slice()) {
        Some(n) => n,
        None => {
            return Err(Error::Corrupt("AtoB/BtoA CLUT table size invalid"));
        },
    };
    let table = if precision == 1 {
        read_table(r, n_entries, false)?
    } else if precision == 2 {
        read_table(r, n_entries, true)?
    } else {
        return Err(Error::Corrupt("AtoB/BtoA CLUT unknown precision"));
    };
    let st = Stage::Clut(
        ClutStage {
            inputs: input_channels as usize,
            outputs: output_channels as usize,
            grid,
            table,
            is_trilinear: false,
            implements_identity: false,
        },
    );
    lut.insert_stage_at_end(st)
}

/// Curve `c` of an 8-bit LUT's curve set comes from its own block of 256
/// bytes: two byte strings that agree on block `c` give the same curve `c`,
/// whatever the other blocks hold.
pub proof fn lemma_tables8_local(d1: Seq<u8>, d2: Seq<u8>, at: int, n: nat, c: int)
    requires
        0 <= c < n,
        forall|k: int| 0 <= k < 256 ==> #[trigger] d1[at + 256 * c + k] == d2[at + 256 * c + k],
    ensures
        tables8(d1, at, n)[c] == tables8(d2, at, n)[c],
{
    assert forall|k: int| 0 <= k < 256 implies #[trigger] tables8(d1, at, n)[c][k] == tables8(d2, at, n)[c][k] by {
        assert(d1[at + 256 * c + k] == d2[at + 256 * c + k]);
    }
    assert(tables8(d1, at, n)[c] =~= tables8(d2, at, n)[c]);
}

/// Curves of an 8-bit LUT's curve set whose bytes differ differ: entry `k`
/// of curves `c1` and `c2` is the same only when the two bytes are.
pub proof fn lemma_tables8_distinct(d: Seq<u8>, at: int, n: nat, c1: int, c2: int, k: int)
    requires
        0 <= c1 < n,
        0 <= c2 < n,
        0 <= k < 256,
    ensures
        (tables8(d, at, n)[c1][k] == tables8(d, at, n)[c2][k]) == (d[at + 256 * c1 + k] == d[at + 256 * c2
            + k]),
{
    let b1 = d[at + 256 * c1 + k];
    let b2 = d[at + 256 * c2 + k];
    assert(b1 as int * 257 <= 65535);
    assert(b2 as int * 257 <= 65535);
    assert(w8(b1) == b1 as int * 257);
    assert(w8(b2) == b2 as int * 257);
}

} // verus!
