//! Grid sweeping for gamut estimation: the 16-bit value of a grid node
//! coordinate, the sweep over every node of an n-dimensional grid in the
//! order the CLUT tables are laid out, and the pixel-type code and float
//! format word of a profile's color space.

use vstd::prelude::*;
use crate::header::{ColorSpace, Header};
use crate::link::{
    channels_of_color_space, space_channels, PT_CMY, PT_CMYK, PT_GRAY, PT_HLS, PT_HSV, PT_LAB,
    PT_RGB, PT_XYZ, PT_YCBCR, PT_YUV, PT_YUVK, PT_YXY,
};
use crate::lut::prod_from;

verus! {

/// Most inputs a swept grid may have, plus one.
pub const MAX_GRID_INPUTS: usize = 16;

/// `a / b` rounded to the nearest integer, ties to the even one.
pub open spec fn round_half_even(a: int, b: int) -> int {
    let fl = a / b;
    let rem = a % b;
    if 2 * rem > b {
        fl + 1
    } else if 2 * rem < b {
        fl
    } else if fl % 2 == 0 {
        fl
    } else {
        fl + 1
    }
}

/// Node `i` of an axis with `max_samples` points as a 16-bit value: `i *
/// 65535 / (max_samples - 1) + 0.5`, first rounded to a multiple of 1/65536
/// (ties to even) as the fast-floor trick does, then floored, saturated at
/// 0xffff. On a one-point axis the quotient is 0/0 for node 0, which the
/// fast-floor trick turns into 0x7fff, and infinite for the other nodes.
pub open spec fn quantize(i: int, max_samples: int) -> u16 {
    if max_samples == 1 {
        if i == 0 {
            0x7fff
        } else {
            0xffff
        }
    } else {
        let b = max_samples - 1;
        let w = round_half_even(i * 65535 * 65536 + 32768 * b, b) / 65536;
        if w >= 65535 {
            0xffff
        } else {
            w as u16
        }
    }
}

/// The 16-bit value of node `i` on an axis of `max_samples` points.
pub fn quantize_val(i: u32, max_samples: u32) -> (r: u16)
    requires
        max_samples >= 1,
    ensures
        r == quantize(i as int, max_samples as int),
{
    if max_samples == 1 {
        return if i == 0 {
            0x7fff
        } else {
            0xffff
        };
    }
    let b: u128 = (max_samples - 1) as u128;
    assert((i as u128) * 65535 * 65536 <= 0xffff_ffffu128 * 65535 * 65536) by (nonlinear_arith)
        requires
            i <= 0xffff_ffffu32,
    ;
    let a: u128 = (i as u128) * 65535 * 65536 + 32768 * b;
    let fl: u128 = a / b;
    let rem: u128 = a % b;
    let r: u128 = if 2 * rem > b {
        fl + 1
    } else if 2 * rem < b {
        fl
    } else if fl % 2 == 0 {
        fl
    } else {
        fl + 1
    };
    let w: u128 = r / 65536;
    if w >= 65535 {
        0xffff
    } else {
        w as u16
    }
}

/// The product of the first `k` axis sizes.
pub open spec fn prod_to(s: Seq<u32>, k: int) -> int
    decreases k,
{
    if k <= 0 || k > s.len() {
        1
    } else {
        prod_to(s, k - 1) * s[k - 1]
    }
}

/// The index along axis `t` of grid node `i` (the last axis varies fastest).
pub open spec fn axis_index(cp: Seq<u32>, i: int, t: int) -> int {
    (i / prod_from(cp, t + 1)) % (cp[t] as int)
}

/// The 16-bit coordinates of grid node `i`.
pub open spec fn grid_node(cp: Seq<u32>, i: int) -> Seq<u16> {
    Seq::new(cp.len(), |t: int| quantize(axis_index(cp, i, t), cp[t] as int))
}

/// The sampler answered `b` for a node.
pub open spec fn answered<F: Fn(&[u16]) -> bool>(f: F, node: Seq<u16>, b: bool) -> bool {
    exists|s: &[u16]| s@ == node && #[trigger] f.ensures((s,), b)
}

pub(crate) proof fn lemma_prod_split(s: Seq<u32>, k: int)
    requires
        0 <= k <= s.len(),
    ensures
        prod_to(s, k) * prod_from(s, k) == prod_from(s, 0),
    decreases k,
{
    if k > 0 {
        lemma_prod_split(s, k - 1);
        let a = prod_to(s, k - 1);
        let b = prod_from(s, k);
        let c = s[k - 1] as int;
        assert(prod_from(s, k - 1) == c * b);
        assert(prod_to(s, k) == a * c);
        assert((a * c) * b == a * (c * b)) by (nonlinear_arith);
    }
}

pub(crate) proof fn lemma_prod_pos(s: Seq<u32>, k: int)
    requires
        0 <= k <= s.len(),
        prod_from(s, k) != 0,
    ensures
        prod_from(s, k) >= 1,
        forall|j: int| k <= j < s.len() ==> s[j] >= 1,
    decreases s.len() - k,
{
    if k < s.len() {
        let c = s[k] as int;
        let b = prod_from(s, k + 1);
        assert(prod_from(s, k) == c * b);
        assert(b != 0) by (nonlinear_arith)
            requires
                c * b != 0,
        ;
        lemma_prod_pos(s, k + 1);
        assert(c != 0) by (nonlinear_arith)
            requires
                c * b != 0,
        ;
        assert(c * b >= 1) by (nonlinear_arith)
            requires
                c >= 1,
                b >= 1,
        ;
    }
}

/// Write the 16-bit coordinates of grid node `i` into `in16`.
pub(crate) fn fill_node(in16: &mut Vec<u16>, clut_points: &[u32], i: usize, n_total: usize)
    requires
        old(in16)@.len() == clut_points@.len(),
        n_total == prod_from(clut_points@, 0),
        n_total >= 1,
        i < n_total,
    ensures
        final(in16)@ == grid_node(clut_points@, i as int),
{
    let ghost cp = clut_points@;
    let n_inputs = clut_points.len();
    proof {
        lemma_prod_pos(cp, 0);
    }
    let mut rest: usize = i;
    let mut t: usize = n_inputs;
    while t > 0
        invariant
            t <= n_inputs,
            i < n_total,
            n_total == prod_from(cp, 0),
            cp == clut_points@,
            n_inputs == cp.len(),
            in16@.len() == n_inputs,
            forall|j: int| 0 <= j < cp.len() ==> cp[j] >= 1,
            rest == (i as int) / prod_from(cp, t as int),
            forall|u: int| t <= u < n_inputs ==> #[trigger] in16@[u] == quantize(
                axis_index(cp, i as int, u),
                cp[u] as int,
            ),
        decreases t,
    {
        t -= 1;
        proof {
            crate::lut::lemma_prod_from_pos(cp, (t + 1) as int);
            crate::lut::lemma_prod_from_pos(cp, t as int);
            assert(prod_from(cp, t as int) == cp[t as int] * prod_from(cp, t + 1));
            vstd::arithmetic::div_mod::lemma_div_denominator(
                i as int,
                prod_from(cp, t + 1),
                cp[t as int] as int,
            );
            assert(prod_from(cp, t + 1) * cp[t as int] == cp[t as int] * prod_from(cp, t + 1)) by (nonlinear_arith);
        }
        let cpt = clut_points[t];
        let colorant = rest % (cpt as usize);
        rest = rest / (cpt as usize);
        let q = quantize_val(colorant as u32, cpt);
        in16.set(t, q);
    }
    assert(in16@ =~= grid_node(cp, i as int));
}

/// Call `sampler` on every node of the grid whose axis sizes are
/// `clut_points`, in table order (last axis fastest), until it answers
/// `false`. Returns `false` without sampling for 16 or more axes or an empty
/// grid, `false` as soon as the sampler does, and `true` after the last node.
pub fn slice_space_16<F: Fn(&[u16]) -> bool>(clut_points: &[u32], sampler: F) -> (r: bool)
    requires
        forall|s: &[u16]| #[trigger] sampler.requires((s,)),
        clut_points@.len() < MAX_GRID_INPUTS ==> forall|k: int|
            0 <= k <= clut_points@.len() ==> #[trigger] prod_to(clut_points@, k) <= usize::MAX,
    ensures
        clut_points@.len() >= MAX_GRID_INPUTS ==> !r,
        prod_from(clut_points@, 0) == 0 ==> !r,
        r ==> forall|k: int|
            0 <= k < prod_from(clut_points@, 0) ==> answered(
                sampler,
                #[trigger] grid_node(clut_points@, k),
                true,
            ),
        (clut_points@.len() < MAX_GRID_INPUTS && prod_from(clut_points@, 0) != 0 && !r) ==> exists|k: int|
            0 <= k < prod_from(clut_points@, 0) && answered(
                sampler,
                #[trigger] grid_node(clut_points@, k),
                false,
            ) && forall|j: int| 0 <= j < k ==> answered(sampler, #[trigger] grid_node(clut_points@, j), true),
{
    let n_inputs = clut_points.len();
    if n_inputs >= MAX_GRID_INPUTS {
        return false;
    }
    let ghost cp = clut_points@;
    let mut n_total: usize = 1;
    let mut k: usize = 0;
    while k < n_inputs
        invariant
            k <= n_inputs,
            n_inputs == cp.len(),
            cp == clut_points@,
            n_total == prod_to(cp, k as int),
            forall|j: int| 0 <= j <= cp.len() ==> #[trigger] prod_to(cp, j) <= usize::MAX,
        decreases n_inputs - k,
    {
        assert(prod_to(cp, k + 1) == prod_to(cp, k as int) * cp[k as int]);
        assert(prod_to(cp, k + 1) <= usize::MAX);
        n_total = n_total * (clut_points[k] as usize);
        k += 1;
    }
    proof {
        lemma_prod_split(cp, cp.len() as int);
    }
    assert(n_total == prod_from(cp, 0));
    if n_total == 0 {
        return false;
    }
    proof {
        lemma_prod_pos(cp, 0);
    }
    let mut in16: Vec<u16> = vec![0u16; n_inputs];
    let mut i: usize = 0;
    while i < n_total
        invariant
            i <= n_total,
            n_total == prod_from(cp, 0),
            n_total >= 1,
            cp == clut_points@,
            n_inputs == cp.len(),
            n_inputs < MAX_GRID_INPUTS,
            in16@.len() == n_inputs,
            forall|s: &[u16]| #[trigger] sampler.requires((s,)),
            forall|j: int| 0 <= j < cp.len() ==> cp[j] >= 1,
            forall|j: int| 0 <= j < i ==> answered(sampler, #[trigger] grid_node(cp, j), true),
        decreases n_total - i,
    {
        fill_node(&mut in16, clut_points, i, n_total);
        let sl = in16.as_slice();
        assert(sl@ =~= grid_node(cp, i as int));
        let ok = sampler(sl);
        if !ok {
            assert(answered(sampler, grid_node(cp, i as int), false));
            return false;
        }
        assert(answered(sampler, grid_node(cp, i as int), true));
        i += 1;
    }
    true
}

/// The pixel-type code of a color space, `None` for a space with none.
pub open spec fn pt_code(cs: ColorSpace) -> Option<u32> {
    match cs {
        ColorSpace::Gray => Some(PT_GRAY),
        ColorSpace::Rgb => Some(PT_RGB),
        ColorSpace::Cmy => Some(PT_CMY),
        ColorSpace::Cmyk => Some(PT_CMYK),
        ColorSpace::YCbCr => Some(PT_YCBCR),
        ColorSpace::Luv => Some(PT_YUV),
        ColorSpace::XYZ => Some(PT_XYZ),
        ColorSpace::Lab => Some(PT_LAB),
        ColorSpace::LuvK => Some(PT_YUVK),
        ColorSpace::Hsv => Some(PT_HSV),
        ColorSpace::Hls => Some(PT_HLS),
        ColorSpace::Yxy => Some(PT_YXY),
        ColorSpace::Color1 | ColorSpace::Mch1 => Some(1),
        ColorSpace::Color2 | ColorSpace::Mch2 => Some(2),
        ColorSpace::Color3 | ColorSpace::Mch3 => Some(3),
        ColorSpace::Color4 | ColorSpace::Mch4 => Some(4),
        ColorSpace::Color5 | ColorSpace::Mch5 => Some(5),
        ColorSpace::Color6 | ColorSpace::Mch6 => Some(6),
        ColorSpace::Color7 | ColorSpace::Mch7 => Some(7),
        ColorSpace::Color8 | ColorSpace::Mch8 => Some(8),
        ColorSpace::Color9 | ColorSpace::Mch9 => Some(9),
        ColorSpace::Color10 | ColorSpace::MchA => Some(10),
        ColorSpace::Color11 | ColorSpace::MchB => Some(11),
        ColorSpace::Color12 | ColorSpace::MchC => Some(12),
        ColorSpace::Color13 | ColorSpace::MchD => Some(13),
        ColorSpace::Color14 | ColorSpace::MchE => Some(14),
        ColorSpace::Color15 | ColorSpace::MchF => Some(15),
        _ => None,
    }
}

pub fn lcms_color_space(cs: ColorSpace) -> (r: Option<u32>)
    ensures
        r == pt_code(cs),
{
    match cs {
        ColorSpace::Gray => Some(PT_GRAY),
        ColorSpace::Rgb => Some(PT_RGB),
        ColorSpace::Cmy => Some(PT_CMY),
        ColorSpace::Cmyk => Some(PT_CMYK),
        ColorSpace::YCbCr => Some(PT_YCBCR),
        ColorSpace::Luv => Some(PT_YUV),
        ColorSpace::XYZ => Some(PT_XYZ),
        ColorSpace::Lab => Some(PT_LAB),
        ColorSpace::LuvK => Some(PT_YUVK),
        ColorSpace::Hsv => Some(PT_HSV),
        ColorSpace::Hls => Some(PT_HLS),
        ColorSpace::Yxy => Some(PT_YXY),
        ColorSpace::Color1 | ColorSpace::Mch1 => Some(1),
        ColorSpace::Color2 | ColorSpace::Mch2 => Some(2),
        ColorSpace::Color3 | ColorSpace::Mch3 => Some(3),
        ColorSpace::Color4 | ColorSpace::Mch4 => Some(4),
        ColorSpace::Color5 | ColorSpace::Mch5 => Some(5),
        ColorSpace::Color6 | ColorSpace::Mch6 => Some(6),
        ColorSpace::Color7 | ColorSpace::Mch7 => Some(7),
        ColorSpace::Color8 | ColorSpace::Mch8 => Some(8),
        ColorSpace::Color9 | ColorSpace::Mch9 => Some(9),
        ColorSpace::Color10 | ColorSpace::MchA => Some(10),
        ColorSpace::Color11 | ColorSpace::MchB => Some(11),
        ColorSpace::Color12 | ColorSpace::MchC => Some(12),
        ColorSpace::Color13 | ColorSpace::MchD => Some(13),
        ColorSpace::Color14 | ColorSpace::MchE => Some(14),
        ColorSpace::Color15 | ColorSpace::MchF => Some(15),
        _ => None,
    }
}

/// The 4-byte float format word of a color space: float flag, pixel type,
/// channel count and byte width.
pub open spec fn float_format(cs: ColorSpace) -> Option<u32> {
    match (pt_code(cs), space_channels(cs)) {
        (Some(pt), Some(n)) => Some((1u32 << 22u32) | (pt << 16u32) | ((n as u32) << 3u32) | 4),
        _ => None,
    }
}

/// The float format word of a profile's color space (see [`float_format`]).
pub fn float_formatter_for_profile(header: &Header) -> (r: Option<u32>)
    ensures
        r == float_format(header.color_space),
{
    let cs = header.color_space;
    let pt = match lcms_color_space(cs) {
        Some(p) => p,
        None => {
            return None;
        },
    };
    let nchan = match channels_of_color_space(cs) {
        Some(n) => n as u32,
        None => {
            return None;
        },
    };
    Some((1u32 << 22u32) | (pt << 16u32) | (nchan << 3u32) | 4)
}

} // verus!
