//! Building blocks of the built-in virtual profiles: their common header
//! and the identity CLUT over two grid points per input.

use vstd::prelude::*;
use crate::gamut::{quantize, quantize_val};
use crate::header::{ColorSpace, DateTime, Header, ProfileClass, RenderingIntent};
use crate::lut::{lemma_p2_mono, lemma_p2_values, p2};
use crate::pipeline::{ClutStage, ClutV, Pipeline, Stage, StageV};
use crate::sig::Signature;

verus! {

/// The D50 white in s15.16: 0.9642, 1.0, 0.8249.
pub const D50_FIXED: [i32; 3] = [0xF6D6, 0x1_0000, 0xD32D];

/// The header every virtual profile starts from: the version, class, spaces
/// and intent of an RGB display profile, a fixed creation date, D50 as
/// illuminant and every signature, flag and identifier zero.
pub fn virtual_header() -> (h: Header)
    ensures
        h.size == 0,
        h.cmm.0 == 0,
        h.version == 0x0440_0000,
        h.device_class == ProfileClass::Display,
        h.color_space == ColorSpace::Rgb,
        h.pcs == ColorSpace::XYZ,
        h.date == (DateTime { year: 2026, month: 6, day: 15, hours: 12, minutes: 34, seconds: 56 }),
        h.platform.0 == 0,
        h.flags == 0,
        h.manufacturer.0 == 0,
        h.model == 0,
        h.attributes == 0,
        h.rendering_intent == RenderingIntent::Perceptual,
        h.illuminant@ == D50_FIXED@,
        h.creator.0 == 0,
        h.profile_id@ == Seq::new(16, |k: int| 0u8),
{
    let h = Header {
        size: 0,
        cmm: Signature::from_raw(0),
        version: 0x0440_0000,
        device_class: ProfileClass::Display,
        color_space: ColorSpace::Rgb,
        pcs: ColorSpace::XYZ,
        date: DateTime { year: 2026, month: 6, day: 15, hours: 12, minutes: 34, seconds: 56 },
        platform: Signature::from_raw(0),
        flags: 0,
        manufacturer: Signature::from_raw(0),
        model: 0,
        attributes: 0,
        rendering_intent: RenderingIntent::Perceptual,
        illuminant: [0xF6D6, 0x1_0000, 0xD32D],
        creator: Signature::from_raw(0),
        profile_id: [0u8; 16],
    };
    assert(h.profile_id@ =~= Seq::new(16, |k: int| 0u8));
    h
}

/// Coordinate `t` of node `i` of an `n`-input grid of two points per axis,
/// the last axis varying fastest, as a 16-bit value.
pub open spec fn identity_node(n: nat, i: int, t: int) -> u16 {
    quantize((i / p2((n - 1 - t) as nat) as int) % 2, 2)
}

/// The identity CLUT of `n` inputs and outputs over two points per axis:
/// every node gives back its own coordinates.
pub open spec fn identity_clut(n: nat) -> ClutV {
    ClutV {
        inputs: n,
        outputs: n,
        grid: Seq::new(n, |k: int| 2u32),
        table: Seq::new(n * p2(n), |k: int| identity_node(n, k / n as int, k % n as int)),
        is_trilinear: false,
        implements_identity: true,
    }
}

proof fn lemma_node_pos(i: int, n: int, u: int)
    requires
        0 <= u < n,
        0 <= i,
    ensures
        (i * n + u) / n == i,
        (i * n + u) % n == u,
{
    assert((i * n + u) / n == i && (i * n + u) % n == u) by (nonlinear_arith)
        requires
            0 <= u < n,
            0 <= i,
    ;
}

/// The coordinates of node `i` of an `n`-input grid of two points per axis.
fn node_coords(n_chan: usize, i: usize) -> (c: Vec<u16>)
    requires
        n_chan <= 16,
    ensures
        c@.len() == n_chan,
        forall|u: int| 0 <= u < n_chan ==> #[trigger] c@[u] == identity_node(n_chan as nat, i as int, u),
{
    let mut coords: Vec<u16> = Vec::new();
    let mut z: usize = 0;
    while z < n_chan
        invariant
            z <= n_chan,
            coords@.len() == z,
        decreases n_chan - z,
    {
        coords.push(0);
        z += 1;
    }
    let mut rest: usize = i;
    let mut t: usize = n_chan;
    assert(p2((n_chan - t) as nat) == 1);
    while t > 0
        invariant
            t <= n_chan <= 16,
            coords@.len() == n_chan,
            rest as int == i as int / p2((n_chan - t) as nat) as int,
            forall|u: int| t <= u < n_chan ==> #[trigger] coords@[u] == identity_node(n_chan as nat, i as int, u),
        decreases t,
    {
        t -= 1;
        let colorant = rest % 2;
        proof {
            let e = (n_chan - 1 - t) as nat;
            assert(p2(e + 1) == 2 * p2(e));
            assert(p2(e) > 0) by {
                lemma_p2_mono(0, e);
            }
            vstd::arithmetic::div_mod::lemma_div_denominator(i as int, p2(e) as int, 2);
            assert(p2(e) as int * 2 == p2(e + 1) as int);
        }
        rest = rest / 2;
        coords.set(t, quantize_val(colorant as u32, 2));
    }
    coords
}

/// A pipeline of `n_chan` inputs and outputs made of the identity CLUT over
/// two grid points per axis, marked as an identity so that optimization
/// removes it. The grid's `2^n_chan` nodes stay within a 16-input table.
pub fn identity_clut_pipeline(n_chan: usize) -> (p: Pipeline)
    requires
        n_chan <= 16,
    ensures
        p.ic() == n_chan,
        p.oc() == n_chan,
        p.sv() == seq![StageV::Clut(identity_clut(n_chan as nat))],
{
    let mut n_total: usize = 1;
    let mut e: usize = 0;
    while e < n_chan
        invariant
            e <= n_chan <= 16,
            n_total == p2(e as nat),
        decreases n_chan - e,
    {
        proof {
            lemma_p2_mono((e + 1) as nat, 16);
            lemma_p2_values();
        }
        n_total = n_total * 2;
        e += 1;
    }
    proof {
        lemma_p2_mono(n_chan as nat, 16);
        lemma_p2_values();
    }
    let ghost n = n_chan as int;
    let mut table: Vec<u16> = Vec::new();
    let mut i: usize = 0;
    while i < n_total
        invariant
            n_chan <= 16,
            n == n_chan,
            n_total == p2(n_chan as nat) <= 0x1_0000,
            i <= n_total,
            table@.len() == i * n,
            forall|k: int|
                0 <= k < i * n ==> #[trigger] table@[k] == identity_node(n_chan as nat, k / n, k % n),
        decreases n_total - i,
    {
        let coords = node_coords(n_chan, i);
        let mut u: usize = 0;
        while u < n_chan
            invariant
                u <= n_chan <= 16,
                n == n_chan,
                i < n_total <= 0x1_0000,
                coords@.len() == n_chan,
                forall|w: int| 0 <= w < n_chan ==> #[trigger] coords@[w] == identity_node(n_chan as nat, i as int, w),
                table@.len() == i * n + u,
                forall|k: int|
                    0 <= k < i * n + u ==> #[trigger] table@[k] == identity_node(n_chan as nat, k / n, k % n),
            decreases n_chan - u,
        {
            proof {
                lemma_node_pos(i as int, n, u as int);
            }
            table.push(coords[u]);
            u += 1;
        }
        proof {
            assert((i + 1) * n == i * n + n) by (nonlinear_arith);
        }
        i += 1;
    }
    let mut grid: Vec<u32> = Vec::new();
    let mut g: usize = 0;
    while g < n_chan
        invariant
            g <= n_chan,
            grid@.len() == g,
            forall|k: int| 0 <= k < g ==> #[trigger] grid@[k] == 2u32,
        decreases n_chan - g,
    {
        grid.push(2);
        g += 1;
    }
    let st = Stage::Clut(
        ClutStage {
            inputs: n_chan,
            outputs: n_chan,
            grid,
            table,
            is_trilinear: false,
            implements_identity: true,
        },
    );
    proof {
        assert(n_total * n == n * p2(n_chan as nat)) by (nonlinear_arith)
            requires
                n_total == p2(n_chan as nat),
        ;
        assert(grid@ =~= Seq::new(n_chan as nat, |k: int| 2u32));
        assert(table@ =~= identity_clut(n_chan as nat).table);
    }
    let mut lut = Pipeline::new(n_chan, n_chan);
    match lut.insert_stage_at_end(st) {
        Ok(()) => {},
        Err(_) => {},
    }
    assert(lut.sv() =~= seq![StageV::Clut(identity_clut(n_chan as nat))]);
    lut
}

} // verus!
