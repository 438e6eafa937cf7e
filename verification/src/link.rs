//! The decisions taken while linking profiles that depend only on header
//! fields and tag presence: color-space compatibility at a chain junction,
//! channel counts, ink spaces, matrix-shaper and CLUT detection, and the
//! black-point-compensation flags a link forces on or off.

use vstd::prelude::*;
use crate::directory::TagEntry;
use crate::error::Error;
use crate::header::{ColorSpace, Header, ProfileClass, RenderingIntent};
use crate::pipeline::{append_all, Pipeline, Stage, StageV};

pub mod intents;

verus! {

/// Encoded version from which a profile is version 4.
pub const ICC_VERSION_V4: u32 = 0x0400_0000;

/// Pixel-type codes of the format words.
pub const PT_GRAY: u32 = 3;
pub const PT_RGB: u32 = 4;
pub const PT_CMY: u32 = 5;
pub const PT_CMYK: u32 = 6;
pub const PT_YCBCR: u32 = 7;
pub const PT_YUV: u32 = 8;
pub const PT_XYZ: u32 = 9;
pub const PT_LAB: u32 = 10;
pub const PT_YUVK: u32 = 11;
pub const PT_HSV: u32 = 12;
pub const PT_HLS: u32 = 13;
pub const PT_YXY: u32 = 14;

/// Whether two spaces may meet at a chain junction: the same space, MCH4 and
/// CMYK, or XYZ and Lab.
pub open spec fn compatible_spaces(a: ColorSpace, b: ColorSpace) -> bool {
    ||| a == b
    ||| (a == ColorSpace::Mch4 && b == ColorSpace::Cmyk)
    ||| (a == ColorSpace::Cmyk && b == ColorSpace::Mch4)
    ||| (a == ColorSpace::XYZ && b == ColorSpace::Lab)
    ||| (a == ColorSpace::Lab && b == ColorSpace::XYZ)
}

pub fn color_space_is_compatible(a: ColorSpace, b: ColorSpace) -> (r: bool)
    ensures
        r == compatible_spaces(a, b),
{
    if a == b {
        return true;
    }
    match (a, b) {
        (ColorSpace::Mch4, ColorSpace::Cmyk) => true,
        (ColorSpace::Cmyk, ColorSpace::Mch4) => true,
        (ColorSpace::XYZ, ColorSpace::Lab) => true,
        (ColorSpace::Lab, ColorSpace::XYZ) => true,
        _ => false,
    }
}

/// The device channel count of a color space; `None` for a space with no
/// fixed count.
pub open spec fn space_channels(cs: ColorSpace) -> Option<nat> {
    match cs {
        ColorSpace::Mch1 | ColorSpace::Color1 | ColorSpace::Gray => Some(1),
        ColorSpace::Mch2 | ColorSpace::Color2 => Some(2),
        ColorSpace::XYZ | ColorSpace::Lab | ColorSpace::Luv | ColorSpace::YCbCr | ColorSpace::Yxy
        | ColorSpace::Rgb | ColorSpace::Hsv | ColorSpace::Hls | ColorSpace::Cmy | ColorSpace::Mch3
        | ColorSpace::Color3 => Some(3),
        ColorSpace::LuvK | ColorSpace::Cmyk | ColorSpace::Mch4 | ColorSpace::Color4 => Some(4),
        ColorSpace::Mch5 | ColorSpace::Color5 => Some(5),
        ColorSpace::Mch6 | ColorSpace::Color6 => Some(6),
        ColorSpace::Mch7 | ColorSpace::Color7 => Some(7),
        ColorSpace::Mch8 | ColorSpace::Color8 => Some(8),
        ColorSpace::Mch9 | ColorSpace::Color9 => Some(9),
        ColorSpace::MchA | ColorSpace::Color10 => Some(10),
        ColorSpace::MchB | ColorSpace::Color11 => Some(11),
        ColorSpace::MchC | ColorSpace::Color12 => Some(12),
        ColorSpace::MchD | ColorSpace::Color13 => Some(13),
        ColorSpace::MchE | ColorSpace::Color14 => Some(14),
        ColorSpace::MchF | ColorSpace::Color15 => Some(15),
        _ => None,
    }
}

pub fn channels_of_color_space(cs: ColorSpace) -> (r: Option<usize>)
    ensures
        match space_channels(cs) {
            Some(n) => r == Some(n as usize),
            None => r is None,
        },
{
    match cs {
        ColorSpace::Mch1 | ColorSpace::Color1 | ColorSpace::Gray => Some(1),
        ColorSpace::Mch2 | ColorSpace::Color2 => Some(2),
        ColorSpace::XYZ | ColorSpace::Lab | ColorSpace::Luv | ColorSpace::YCbCr | ColorSpace::Yxy
        | ColorSpace::Rgb | ColorSpace::Hsv | ColorSpace::Hls | ColorSpace::Cmy | ColorSpace::Mch3
        | ColorSpace::Color3 => Some(3),
        ColorSpace::LuvK | ColorSpace::Cmyk | ColorSpace::Mch4 | ColorSpace::Color4 => Some(4),
        ColorSpace::Mch5 | ColorSpace::Color5 => Some(5),
        ColorSpace::Mch6 | ColorSpace::Color6 => Some(6),
        ColorSpace::Mch7 | ColorSpace::Color7 => Some(7),
        ColorSpace::Mch8 | ColorSpace::Color8 => Some(8),
        ColorSpace::Mch9 | ColorSpace::Color9 => Some(9),
        ColorSpace::MchA | ColorSpace::Color10 => Some(10),
        ColorSpace::MchB | ColorSpace::Color11 => Some(11),
        ColorSpace::MchC | ColorSpace::Color12 => Some(12),
        ColorSpace::MchD | ColorSpace::Color13 => Some(13),
        ColorSpace::MchE | ColorSpace::Color14 => Some(14),
        ColorSpace::MchF | ColorSpace::Color15 => Some(15),
        _ => None,
    }
}

/// The ink spaces: CMY, CMYK and the multichannel / N-color spaces.
pub open spec fn ink_space(c: ColorSpace) -> bool {
    match c {
        ColorSpace::Cmyk | ColorSpace::Cmy | ColorSpace::Mch1 | ColorSpace::Mch2
        | ColorSpace::Mch3 | ColorSpace::Mch4 | ColorSpace::Mch5 | ColorSpace::Mch6
        | ColorSpace::Mch7 | ColorSpace::Mch8 | ColorSpace::Mch9 | ColorSpace::MchA
        | ColorSpace::MchB | ColorSpace::MchC | ColorSpace::MchD | ColorSpace::MchE
        | ColorSpace::MchF | ColorSpace::Color1 | ColorSpace::Color2 | ColorSpace::Color3
        | ColorSpace::Color4 | ColorSpace::Color5 | ColorSpace::Color6 | ColorSpace::Color7
        | ColorSpace::Color8 | ColorSpace::Color9 | ColorSpace::Color10 | ColorSpace::Color11
        | ColorSpace::Color12 | ColorSpace::Color13 | ColorSpace::Color14
        | ColorSpace::Color15 => true,
        _ => false,
    }
}

pub fn is_ink_colorspace(c: ColorSpace) -> (r: bool)
    ensures
        r == ink_space(c),
{
    match c {
        ColorSpace::Cmyk | ColorSpace::Cmy | ColorSpace::Mch1 | ColorSpace::Mch2
        | ColorSpace::Mch3 | ColorSpace::Mch4 | ColorSpace::Mch5 | ColorSpace::Mch6
        | ColorSpace::Mch7 | ColorSpace::Mch8 | ColorSpace::Mch9 | ColorSpace::MchA
        | ColorSpace::MchB | ColorSpace::MchC | ColorSpace::MchD | ColorSpace::MchE
        | ColorSpace::MchF | ColorSpace::Color1 | ColorSpace::Color2 | ColorSpace::Color3
        | ColorSpace::Color4 | ColorSpace::Color5 | ColorSpace::Color6 | ColorSpace::Color7
        | ColorSpace::Color8 | ColorSpace::Color9 | ColorSpace::Color10 | ColorSpace::Color11
        | ColorSpace::Color12 | ColorSpace::Color13 | ColorSpace::Color14
        | ColorSpace::Color15 => true,
        _ => false,
    }
}

/// The 16-bit device format, darkest colorant and channel count of a space
/// whose black end point is known.
pub open spec fn darker_colorant(space: ColorSpace) -> Option<(u32, [u16; 4], usize)> {
    match space {
        ColorSpace::Gray => Some(((PT_GRAY << 16u32) | (1u32 << 3u32) | 2, [0u16, 0, 0, 0], 1usize)),
        ColorSpace::Rgb => Some(((PT_RGB << 16u32) | (3u32 << 3u32) | 2, [0u16, 0, 0, 0], 3usize)),
        ColorSpace::Lab => Some(((PT_LAB << 16u32) | (3u32 << 3u32) | 2, [0u16, 0x8080, 0x8080, 0], 3usize)),
        ColorSpace::Cmyk => Some(((PT_CMYK << 16u32) | (4u32 << 3u32) | 2, [0xffffu16, 0xffff, 0xffff, 0xffff], 4usize)),
        ColorSpace::Cmy => Some(((PT_CMY << 16u32) | (3u32 << 3u32) | 2, [0xffffu16, 0xffff, 0xffff, 0], 3usize)),
        _ => None,
    }
}

pub fn darker_colorant_device_format(space: ColorSpace) -> (r: Option<(u32, [u16; 4], usize)>)
    ensures
        r == darker_colorant(space),
{
    let (pt, black, nchan): (u32, [u16; 4], usize) = match space {
        ColorSpace::Gray => (PT_GRAY, [0u16, 0, 0, 0], 1),
        ColorSpace::Rgb => (PT_RGB, [0u16, 0, 0, 0], 3),
        ColorSpace::Lab => (PT_LAB, [0u16, 0x8080, 0x8080, 0], 3),
        ColorSpace::Cmyk => (PT_CMYK, [0xffffu16, 0xffff, 0xffff, 0xffff], 4),
        ColorSpace::Cmy => (PT_CMY, [0xffffu16, 0xffff, 0xffff, 0], 3),
        _ => return None,
    };
    let fmt = (pt << 16u32) | ((nchan as u32) << 3u32) | 2;
    Some((fmt, black, nchan))
}

/// Whether a directory lists a tag.
pub open spec fn lists(dir: Seq<TagEntry>, sig: u32) -> bool {
    exists|i: int| 0 <= i < dir.len() && dir[i].sig.0 == sig
}

fn has_tag(dir: &[TagEntry], sig: u32) -> (r: bool)
    ensures
        r == lists(dir@, sig),
{
    let mut i: usize = 0;
    while i < dir.len()
        invariant
            i <= dir@.len(),
            forall|k: int| 0 <= k < i ==> dir@[k].sig.0 != sig,
        decreases dir.len() - i,
    {
        if dir[i].sig.0 == sig {
            return true;
        }
        i += 1;
    }
    false
}

/// Tag signatures a matrix shaper carries.
pub const TAG_GRAY_TRC: u32 = 0x6B54_5243;
pub const TAG_RED_COLORANT: u32 = 0x7258_595A;
pub const TAG_GREEN_COLORANT: u32 = 0x6758_595A;
pub const TAG_BLUE_COLORANT: u32 = 0x6258_595A;
pub const TAG_RED_TRC: u32 = 0x7254_5243;
pub const TAG_GREEN_TRC: u32 = 0x6754_5243;
pub const TAG_BLUE_TRC: u32 = 0x6254_5243;

/// A gray profile with a gray TRC, or an RGB profile with all three
/// colorants and all three TRCs.
pub open spec fn matrix_shaper(h: Header, dir: Seq<TagEntry>) -> bool {
    match h.color_space {
        ColorSpace::Gray => lists(dir, TAG_GRAY_TRC),
        ColorSpace::Rgb => lists(dir, TAG_RED_COLORANT) && lists(dir, TAG_GREEN_COLORANT)
            && lists(dir, TAG_BLUE_COLORANT) && lists(dir, TAG_RED_TRC) && lists(dir, TAG_GREEN_TRC)
            && lists(dir, TAG_BLUE_TRC),
        _ => false,
    }
}

/// Whether a profile (its header and tag directory) is a matrix shaper.
pub fn is_matrix_shaper(header: &Header, dir: &[TagEntry]) -> (r: bool)
    ensures
        r == matrix_shaper(*header, dir@),
{
    match header.color_space {
        ColorSpace::Gray => has_tag(dir, TAG_GRAY_TRC),
        ColorSpace::Rgb => {
            has_tag(dir, TAG_RED_COLORANT) && has_tag(dir, TAG_GREEN_COLORANT) && has_tag(
                dir,
                TAG_BLUE_COLORANT,
            ) && has_tag(dir, TAG_RED_TRC) && has_tag(dir, TAG_GREEN_TRC) && has_tag(
                dir,
                TAG_BLUE_TRC,
            )
        },
        _ => false,
    }
}

/// Which way a profile is used.
#[derive(Clone, Copy, Debug, PartialEq, Eq, Structural)]
pub enum Direction {
    Input,
    Output,
}

/// The device-to-PCS (input) or PCS-to-device (output) LUT tag of a
/// standard intent; absolute colorimetric uses the relative table.
pub open spec fn lut_tag(intent: RenderingIntent, dir: Direction) -> Option<u32> {
    let (t0, t1, t2): (u32, u32, u32) = match dir {
        Direction::Input => (0x4132_4230, 0x4132_4231, 0x4132_4232),
        Direction::Output => (0x4232_4130, 0x4232_4131, 0x4232_4132),
    };
    match intent {
        RenderingIntent::Perceptual => Some(t0),
        RenderingIntent::RelativeColorimetric => Some(t1),
        RenderingIntent::Saturation => Some(t2),
        RenderingIntent::AbsoluteColorimetric => Some(t1),
        RenderingIntent::Other(_) => None,
    }
}

/// A device link supports only its header intent; any other profile
/// supports an intent as a CLUT when it holds that intent's LUT tag.
pub open spec fn clut_supported(h: Header, tags: Seq<TagEntry>, intent: RenderingIntent, dir: Direction) -> bool {
    if h.device_class == ProfileClass::Link {
        h.rendering_intent == intent
    } else {
        match lut_tag(intent, dir) {
            Some(t) => lists(tags, t),
            None => false,
        }
    }
}

pub fn is_clut(header: &Header, tags: &[TagEntry], intent: RenderingIntent, dir: Direction) -> (r: bool)
    ensures
        r == clut_supported(*header, tags@, intent, dir),
{
    if header.device_class == ProfileClass::Link {
        return header.rendering_intent == intent;
    }
    let (t0, t1, t2): (u32, u32, u32) = match dir {
        Direction::Input => (0x4132_4230, 0x4132_4231, 0x4132_4232),
        Direction::Output => (0x4232_4130, 0x4232_4131, 0x4232_4132),
    };
    let t = match intent {
        RenderingIntent::Perceptual => t0,
        RenderingIntent::RelativeColorimetric => t1,
        RenderingIntent::Saturation => t2,
        RenderingIntent::AbsoluteColorimetric => t1,
        RenderingIntent::Other(_) => {
            return false;
        },
    };
    has_tag(tags, t)
}

/// An intent is supported as a CLUT in the direction, or by a matrix shaper.
pub fn is_intent_supported(header: &Header, tags: &[TagEntry], intent: RenderingIntent, dir: Direction) -> (r: bool)
    ensures
        r == (clut_supported(*header, tags@, intent, dir) || matrix_shaper(*header, tags@)),
{
    if is_clut(header, tags, intent, dir) {
        return true;
    }
    is_matrix_shaper(header, tags)
}

/// The black-point-compensation flag of one link after the forced settings:
/// off for absolute colorimetric, on for a version 4 profile under the
/// perceptual or saturation intent, else as requested.
pub open spec fn bpc_after(intent: RenderingIntent, version: u32, requested: bool) -> bool {
    let b = if intent == RenderingIntent::AbsoluteColorimetric {
        false
    } else {
        requested
    };
    if (intent == RenderingIntent::Perceptual || intent == RenderingIntent::Saturation)
        && version >= ICC_VERSION_V4 {
        true
    } else {
        b
    }
}

/// Force black-point compensation off for absolute-colorimetric links and
/// on for version 4 profiles under the perceptual and saturation intents.
/// `headers[i]` is the header of the profile of link `i`.
pub fn link_bpc_mutation(intents: &[RenderingIntent], headers: &[Header], bpc: &mut [bool])
    requires
        intents@.len() >= headers@.len(),
        old(bpc)@.len() >= headers@.len(),
    ensures
        final(bpc)@.len() == old(bpc)@.len(),
        forall|i: int| 0 <= i < headers@.len() ==> #[trigger] final(bpc)@[i] == bpc_after(
            intents@[i],
            headers@[i].version,
            old(bpc)@[i],
        ),
        forall|i: int| headers@.len() <= i < old(bpc)@.len() ==> #[trigger] final(bpc)@[i] == old(bpc)@[i],
{
    let mut i: usize = 0;
    while i < headers.len()
        invariant
            i <= headers@.len(),
            intents@.len() >= headers@.len(),
            bpc@.len() == old(bpc)@.len(),
            bpc@.len() >= headers@.len(),
            forall|k: int| 0 <= k < i ==> #[trigger] bpc@[k] == bpc_after(
                intents@[k],
                headers@[k].version,
                old(bpc)@[k],
            ),
            forall|k: int| i <= k < bpc@.len() ==> #[trigger] bpc@[k] == old(bpc)@[k],
        decreases headers.len() - i,
    {
        if intents[i] == RenderingIntent::AbsoluteColorimetric {
            bpc[i] = false;
        }
        if intents[i] == RenderingIntent::Perceptual || intents[i] == RenderingIntent::Saturation {
            if headers[i].version >= ICC_VERSION_V4 {
                bpc[i] = true;
            }
        }
        i += 1;
    }
}

/// Forcing the flags twice changes nothing more than forcing them once.
pub proof fn lemma_bpc_after_idempotent(intent: RenderingIntent, version: u32, requested: bool)
    ensures
        bpc_after(intent, version, bpc_after(intent, version, requested)) == bpc_after(
            intent,
            version,
            requested,
        ),
{
}

// ------------------------------------------------------------ PCS conversion

/// The 3x3 matrix stage with its offset, as plain values.
pub open spec fn matrix_with_offset(m: Seq<u64>, off: Seq<u64>) -> StageV {
    StageV::Matrix { rows: 3, cols: 3, m, offset: Some(off) }
}

/// The stages that carry values from `in_pcs` to `out_pcs` through the
/// matrix `mat` (left out when the layer is empty), or `None` when the two
/// spaces cannot be joined: XYZ and Lab convert into each other around the
/// matrix, any other space only meets itself.
pub open spec fn conversion_stages(in_pcs: ColorSpace, out_pcs: ColorSpace, mat: StageV, empty: bool) -> Option<Seq<StageV>> {
    let layer: Seq<StageV> = if empty {
        Seq::empty()
    } else {
        seq![mat]
    };
    match in_pcs {
        ColorSpace::XYZ => match out_pcs {
            ColorSpace::XYZ => Some(layer),
            ColorSpace::Lab => Some(layer.push(StageV::Xyz2Lab)),
            _ => None,
        },
        ColorSpace::Lab => match out_pcs {
            ColorSpace::XYZ => Some(seq![StageV::Lab2Xyz] + layer),
            ColorSpace::Lab => Some(
                if empty {
                    Seq::empty()
                } else {
                    seq![StageV::Lab2Xyz, mat, StageV::Xyz2Lab]
                },
            ),
            _ => None,
        },
        _ => if in_pcs == out_pcs {
            Some(Seq::empty())
        } else {
            None
        },
    }
}

fn matrix_stage(m: &[u64; 9], off: &[u64; 3]) -> (s: Stage)
    ensures
        s@ == matrix_with_offset(m@, off@),
{
    let mut mv: Vec<u64> = Vec::new();
    let mut i: usize = 0;
    while i < 9
        invariant
            i <= 9,
            mv@ == m@.subrange(0, i as int),
        decreases 9 - i,
    {
        mv.push(m[i]);
        i += 1;
        assert(mv@ =~= m@.subrange(0, i as int));
    }
    let mut ov: Vec<u64> = Vec::new();
    let mut j: usize = 0;
    while j < 3
        invariant
            j <= 3,
            ov@ == off@.subrange(0, j as int),
        decreases 3 - j,
    {
        ov.push(off[j]);
        j += 1;
        assert(ov@ =~= off@.subrange(0, j as int));
    }
    assert(mv@ =~= m@);
    assert(ov@ =~= off@);
    Stage::Matrix { rows: 3, cols: 3, m: mv, offset: Some(ov) }
}

/// Append to `result` the stages that take values from `in_pcs` to
/// `out_pcs` through the matrix `m` (row-major, bit patterns of `f64`) and
/// offset `off`; `empty_layer` says that the matrix is the identity and the
/// offset zero, so that no matrix stage is needed.
pub fn add_conversion(
    result: &mut Pipeline,
    in_pcs: ColorSpace,
    out_pcs: ColorSpace,
    m: &[u64; 9],
    off: &[u64; 3],
    empty_layer: bool,
) -> (r: Result<(), Error>)
    ensures
        final(result).ic() == old(result).ic(),
        final(result).oc() == old(result).oc(),
        match conversion_stages(in_pcs, out_pcs, matrix_with_offset(m@, off@), empty_layer) {
            None => r == Err::<(), Error>(Error::Corrupt("ColorSpace mismatch")) && final(result).sv()
                == old(result).sv(),
            Some(ss) => {
                let (v, e) = append_all(old(result).sv(), old(result).ic() as nat, ss);
                &&& final(result).sv() == v
                &&& e is None ==> r is Ok
                &&& e is Some ==> r == Err::<(), Error>(e->0)
            },
        },
{
    let ghost sv0 = result.sv();
    let ghost ic = result.ic() as nat;
    let ghost mat = matrix_with_offset(m@, off@);
    proof {
        reveal_with_fuel(append_all, 4);
    }
    match in_pcs {
        ColorSpace::XYZ => match out_pcs {
            ColorSpace::XYZ => {
                if !empty_layer {
                    result.insert_stage_at_end(matrix_stage(m, off))?;
                }
                assert(seq![mat].drop_first() =~= Seq::<StageV>::empty());
            },
            ColorSpace::Lab => {
                if !empty_layer {
                    let ghost ss = seq![mat, StageV::Xyz2Lab];
                    assert(ss.drop_first() =~= seq![StageV::Xyz2Lab]);
                    assert(seq![StageV::Xyz2Lab].drop_first() =~= Seq::<StageV>::empty());
                    result.insert_stage_at_end(matrix_stage(m, off))?;
                } else {
                    assert(seq![StageV::Xyz2Lab].drop_first() =~= Seq::<StageV>::empty());
                }
                result.insert_stage_at_end(Stage::Xyz2Lab)?;
                assert(Seq::<StageV>::empty().push(StageV::Xyz2Lab) =~= seq![StageV::Xyz2Lab]);
                assert(seq![mat].push(StageV::Xyz2Lab) =~= seq![mat, StageV::Xyz2Lab]);
            },
            _ => {
                return Err(Error::Corrupt("ColorSpace mismatch"));
            },
        },
        ColorSpace::Lab => match out_pcs {
            ColorSpace::XYZ => {
                assert(seq![StageV::Lab2Xyz] + Seq::<StageV>::empty() =~= seq![StageV::Lab2Xyz]);
                assert(seq![StageV::Lab2Xyz] + seq![mat] =~= seq![StageV::Lab2Xyz, mat]);
                assert(seq![StageV::Lab2Xyz, mat].drop_first() =~= seq![mat]);
                assert(seq![StageV::Lab2Xyz].drop_first() =~= Seq::<StageV>::empty());
                assert(seq![mat].drop_first() =~= Seq::<StageV>::empty());
                result.insert_stage_at_end(Stage::Lab2Xyz)?;
                if !empty_layer {
                    result.insert_stage_at_end(matrix_stage(m, off))?;
                }
            },
            ColorSpace::Lab => {
                if !empty_layer {
                    let ghost ss = seq![StageV::Lab2Xyz, mat, StageV::Xyz2Lab];
                    assert(ss.drop_first() =~= seq![mat, StageV::Xyz2Lab]);
                    assert(seq![mat, StageV::Xyz2Lab].drop_first() =~= seq![StageV::Xyz2Lab]);
                    assert(seq![StageV::Xyz2Lab].drop_first() =~= Seq::<StageV>::empty());
                    result.insert_stage_at_end(Stage::Lab2Xyz)?;
                    result.insert_stage_at_end(matrix_stage(m, off))?;
                    result.insert_stage_at_end(Stage::Xyz2Lab)?;
                }
            },
            _ => {
                return Err(Error::Corrupt("ColorSpace mismatch"));
            },
        },
        _ => {
            if in_pcs != out_pcs {
                return Err(Error::Corrupt("ColorSpace mismatch"));
            }
        },
    }
    Ok(())
}

/// Black-point compensation by intent: always off under absolute
/// colorimetric; always on for a version 4 (or later) profile under the
/// perceptual and saturation intents; as requested otherwise, so in
/// particular as requested under relative colorimetric whatever the
/// version.
pub proof fn lemma_bpc_by_intent(version: u32, requested: bool)
    ensures
        bpc_after(RenderingIntent::RelativeColorimetric, version, requested) == requested,
        !bpc_after(RenderingIntent::AbsoluteColorimetric, version, requested),
        version >= ICC_VERSION_V4 ==> bpc_after(RenderingIntent::Perceptual, version, requested)
            && bpc_after(RenderingIntent::Saturation, version, requested),
        version < ICC_VERSION_V4 ==> bpc_after(RenderingIntent::Perceptual, version, requested) == requested
            && bpc_after(RenderingIntent::Saturation, version, requested) == requested,
        forall|x: u32| #[trigger] bpc_after(RenderingIntent::Other(x), version, requested) == requested,
{
}

} // verus!
