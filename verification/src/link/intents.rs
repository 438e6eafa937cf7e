//! Building the un-optimized device link of a chain of profiles under the
//! built-in intents: which way each profile is used, the color-space checks
//! at each junction, the PCS conversions between legs, and the
//! concatenation of the legs' pipelines. The pipelines each profile
//! contributes and the conversion matrices are computed by the caller and
//! handed in.

use vstd::prelude::*;
use crate::error::Error;
use crate::header::{ColorSpace, Header, ProfileClass};
use crate::link::{
    add_conversion, channels_of_color_space, color_space_is_compatible, compatible_spaces,
    conversion_stages, matrix_with_offset, space_channels,
};
use crate::pipeline::{append_all, first_break, simplified_by, st_out, Pipeline, StageV};

verus! {

/// How a profile of the chain is used.
#[derive(Clone, Copy, Debug, PartialEq, Eq, Structural)]
pub enum LegKind {
    /// In the input direction: device to PCS, no conversion before it.
    Input,
    /// In the output direction: PCS to device, after a PCS conversion.
    Output,
    /// A device link, an abstract profile or a lone named-color profile,
    /// after a PCS conversion (the identity unless it is an abstract
    /// profile that is not first).
    Link,
}

/// A conversion matrix and offset (bit patterns of `f64`, row-major) and
/// whether they are the identity and zero.
pub type Conversion = ([u64; 9], [u64; 3], bool);

/// A device link or an abstract profile.
pub open spec fn is_link_class(c: ProfileClass) -> bool {
    c == ProfileClass::Link || c == ProfileClass::Abstract
}

/// The space the chain is in before profile `i`: the first profile's
/// space, then the output space of the profile before.
pub open spec fn cur_space(h: Seq<Header>, i: int) -> ColorSpace
    decreases i, 0int,
{
    if i <= 0 {
        h[0].color_space
    } else {
        leg_spaces(h, i - 1).1
    }
}

/// Whether profile `i` is used in the input direction: the first one
/// unless it is a link, else any one met while the chain is not in a PCS.
pub open spec fn leg_is_input(h: Seq<Header>, i: int) -> bool
    decreases i, 1int,
{
    if i <= 0 && !is_link_class(h[0].device_class) {
        true
    } else {
        let c = cur_space(h, i);
        c != ColorSpace::XYZ && c != ColorSpace::Lab
    }
}

/// The spaces profile `i` takes the chain from and to.
pub open spec fn leg_spaces(h: Seq<Header>, i: int) -> (ColorSpace, ColorSpace)
    decreases i, 2int,
{
    if leg_is_input(h, i) || is_link_class(h[i].device_class) {
        (h[i].color_space, h[i].pcs)
    } else {
        (h[i].pcs, h[i].color_space)
    }
}

/// How profile `i` of a chain of `h.len()` is used.
pub open spec fn leg_kind(h: Seq<Header>, i: int) -> LegKind {
    if is_link_class(h[i].device_class) || (h[i].device_class == ProfileClass::NamedColor && h.len() == 1) {
        LegKind::Link
    } else if leg_is_input(h, i) {
        LegKind::Input
    } else {
        LegKind::Output
    }
}

/// Whether the conversion before profile `i` is the one handed in (an
/// output leg, or an abstract profile that is not first).
pub open spec fn leg_converts(h: Seq<Header>, i: int) -> bool {
    leg_kind(h, i) == LegKind::Output || (leg_kind(h, i) == LegKind::Link && h[i].device_class
        == ProfileClass::Abstract && i > 0)
}

/// The bit patterns of the 3 x 3 identity matrix.
pub open spec fn identity_bits() -> Seq<u64> {
    seq![
        0x3FF0_0000_0000_0000u64,
        0,
        0,
        0,
        0x3FF0_0000_0000_0000u64,
        0,
        0,
        0,
        0x3FF0_0000_0000_0000u64,
    ]
}

/// A pipeline as plain values: input width, output width, stages.
pub open spec fn pipe_of(p: Pipeline) -> (int, int, Seq<StageV>) {
    (p.ic() as int, p.oc() as int, p.sv())
}

/// What [`add_conversion`] makes of pipeline `a`.
pub open spec fn conversion_result(
    a: (int, int, Seq<StageV>),
    from: ColorSpace,
    to: ColorSpace,
    m: Seq<u64>,
    off: Seq<u64>,
    empty: bool,
) -> Result<(int, int, Seq<StageV>), Error> {
    match conversion_stages(from, to, matrix_with_offset(m, off), empty) {
        None => Err(Error::Corrupt("ColorSpace mismatch")),
        Some(ss) => {
            let (v, e) = append_all(a.2, a.0 as nat, ss);
            match e {
                Some(x) => Err(x),
                None => Ok((a.0, a.1, v)),
            }
        },
    }
}

/// What [`Pipeline::concat`] makes of pipeline `a` with `b` appended.
pub open spec fn concat_result(a: (int, int, Seq<StageV>), b: (int, int, Seq<StageV>)) -> Result<
    (int, int, Seq<StageV>),
    Error,
> {
    if a.2.len() == 0 && b.2.len() == 0 {
        Ok((b.0, b.1, a.2))
    } else {
        let e0: nat = if a.2.len() == 0 {
            b.0 as nat
        } else {
            st_out(a.2.last())
        };
        let ic1 = if a.2.len() == 0 {
            b.0
        } else {
            a.0
        };
        match first_break(e0, b.2, 0) {
            Some((k, e)) => Err(e),
            None => Ok(
                (
                    ic1,
                    if b.2.len() == 0 {
                        st_out(a.2.last()) as int
                    } else {
                        b.1
                    },
                    a.2 + b.2,
                ),
            ),
        }
    }
}

/// Profile `i` of the chain added to pipeline `a`: the junction check,
/// the profile's own pipeline (`luts[i]`), the conversion before it
/// (`convs[i]` where one is handed in), then the concatenation.
pub open spec fn leg_step(
    h: Seq<Header>,
    luts: Seq<Result<Pipeline, Error>>,
    convs: Seq<Result<Conversion, Error>>,
    i: int,
    a: (int, int, Seq<StageV>),
) -> Result<(int, int, Seq<StageV>), Error> {
    let cur = cur_space(h, i);
    let cin = leg_spaces(h, i).0;
    if !compatible_spaces(cin, cur) {
        Err(Error::Corrupt("ColorSpace mismatch"))
    } else {
        match luts[i] {
            Err(e) => Err(e),
            Ok(lut) => {
                let conv = if leg_kind(h, i) == LegKind::Input {
                    Ok(a)
                } else if leg_converts(h, i) {
                    match convs[i] {
                        Err(e) => Err(e),
                        Ok(c) => conversion_result(a, cur, cin, c.0@, c.1@, c.2),
                    }
                } else {
                    conversion_result(a, cur, cin, identity_bits(), seq![0u64, 0, 0], true)
                };
                match conv {
                    Err(e) => Err(e),
                    Ok(a2) => concat_result(a2, pipe_of(lut)),
                }
            },
        }
    }
}

/// The profiles from `i` on added to pipeline `a`, stopping at the first
/// error.
pub open spec fn chain_from(
    h: Seq<Header>,
    luts: Seq<Result<Pipeline, Error>>,
    convs: Seq<Result<Conversion, Error>>,
    i: int,
    a: (int, int, Seq<StageV>),
) -> Result<(int, int, Seq<StageV>), Error>
    decreases h.len() - i,
{
    if i < 0 || i >= h.len() {
        Ok(a)
    } else {
        match leg_step(h, luts, convs, i, a) {
            Err(e) => Err(e),
            Ok(a2) => chain_from(h, luts, convs, i + 1, a2),
        }
    }
}

/// The chain of all the profiles, from an empty pipeline of undefined
/// widths; no profile is a range error.
pub open spec fn icc_chain(
    h: Seq<Header>,
    luts: Seq<Result<Pipeline, Error>>,
    convs: Seq<Result<Conversion, Error>>,
) -> Result<(int, int, Seq<StageV>), Error> {
    if h.len() == 0 {
        Err(Error::Range)
    } else {
        chain_from(h, luts, convs, 0, (0, 0, Seq::empty()))
    }
}

/// Whether an output width `oc` breaks the final check: unless the chain is
/// a lone named-color profile, it must be the channel count of the last
/// profile's output space, where that space has one.
pub open spec fn width_mismatch(h: Seq<Header>, oc: int) -> bool {
    !(h.len() == 1 && h[0].device_class == ProfileClass::NamedColor) && match space_channels(
        leg_spaces(h, h.len() - 1).1,
    ) {
        Some(c) => oc != c,
        None => false,
    }
}

/// How each profile of the chain is used (see [`leg_kind`]), so that the
/// caller can read each profile's pipeline in the right direction.
pub fn icc_legs(headers: &[Header]) -> (r: Vec<LegKind>)
    ensures
        r@.len() == headers@.len(),
        forall|i: int| 0 <= i < headers@.len() ==> r@[i] == leg_kind(headers@, i),
{
    let n = headers.len();
    let mut r: Vec<LegKind> = Vec::new();
    if n == 0 {
        return r;
    }
    let mut cur = headers[0].color_space;
    let mut i: usize = 0;
    while i < n
        invariant
            n == headers@.len(),
            n > 0,
            i <= n,
            r@.len() == i,
            i < n ==> cur == cur_space(headers@, i as int),
            forall|k: int| 0 <= k < i ==> r@[k] == leg_kind(headers@, k),
        decreases n - i,
    {
        let h = headers[i];
        let link = h.device_class == ProfileClass::Link || h.device_class == ProfileClass::Abstract;
        let is_input = if i == 0 && !link {
            true
        } else {
            cur != ColorSpace::XYZ && cur != ColorSpace::Lab
        };
        let kind = if link || (h.device_class == ProfileClass::NamedColor && n == 1) {
            LegKind::Link
        } else if is_input {
            LegKind::Input
        } else {
            LegKind::Output
        };
        cur = if is_input || link {
            h.pcs
        } else {
            h.color_space
        };
        r.push(kind);
        i += 1;
    }
    r
}

/// The device link of a chain of profiles under the built-in intents,
/// before optimization: per profile, in order, the junction check
/// (`ColorSpace mismatch`), the profile's pipeline `luts[i]` (read in the
/// direction [`icc_legs`] gives), the PCS conversion `convs[i]` before it
/// for an output leg or an abstract profile that is not first (the
/// identity before any other link), then the concatenation; then the
/// structural simplification (`merge` multiplies two adjacent 3 x 3
/// matrices, see [`Pipeline::pre_optimize`]) and the check that the output
/// width is the channel count of the last output space. An empty chain is
/// a range error.
#[verifier::spinoff_prover]
pub fn default_icc_intents<F: Fn(&[u64], &[u64]) -> Option<Vec<u64>>>(
    headers: &[Header],
    luts: &[Result<Pipeline, Error>],
    convs: &[Result<Conversion, Error>],
    merge: F,
) -> (r: Result<Pipeline, Error>)
    requires
        luts@.len() == headers@.len(),
        convs@.len() == headers@.len(),
        forall|a: &[u64], b: &[u64]| merge.requires((a, b)),
    ensures
        headers@.len() == 0 ==> r == Err::<Pipeline, Error>(Error::Range),
        match icc_chain(headers@, luts@, convs@) {
            Err(e) => r == Err::<Pipeline, Error>(e),
            Ok(a) => if width_mismatch(headers@, a.1) {
                r == Err::<Pipeline, Error>(
                    Error::Corrupt("final pipeline output width does not match output color space channels"),
                )
            } else {
                r matches Ok(p) && p.ic() == a.0 && p.oc() == a.1 && exists|rs: Seq<Option<Vec<u64>>>|
                    #![trigger simplified_by(merge, a.2, rs, p.sv())]
                    simplified_by(merge, a.2, rs, p.sv())
            },
        },
{
    let n = headers.len();
    if n == 0 {
        return Err(Error::Range);
    }
    let ghost h = headers@;
    let mut result = Pipeline::new(0, 0);
    let mut current = headers[0].color_space;
    let mut space_out = ColorSpace::Lab;
    let mut i: usize = 0;
    while i < n
        invariant
            n == h.len(),
            h == headers@,
            n > 0,
            i <= n,
            luts@.len() == n,
            convs@.len() == n,
            i < n ==> current == cur_space(h, i as int),
            i > 0 ==> space_out == leg_spaces(h, i - 1).1,
            chain_from(h, luts@, convs@, i as int, pipe_of(result)) == icc_chain(h, luts@, convs@),
        decreases n - i,
    {
        let hd = headers[i];
        let link = hd.device_class == ProfileClass::Link || hd.device_class == ProfileClass::Abstract;
        let is_input = if i == 0 && !link {
            true
        } else {
            current != ColorSpace::XYZ && current != ColorSpace::Lab
        };
        let (space_in, out) = if is_input || link {
            (hd.color_space, hd.pcs)
        } else {
            (hd.pcs, hd.color_space)
        };
        space_out = out;
        let ghost a = pipe_of(result);
        proof {
            assert(is_input == leg_is_input(h, i as int));
            assert((space_in, out) == leg_spaces(h, i as int));
            assert(cur_space(h, i + 1) == out);
        }
        if !color_space_is_compatible(space_in, current) {
            return Err(Error::Corrupt("ColorSpace mismatch"));
        }
        let single_named = hd.device_class == ProfileClass::NamedColor && n == 1;
        let lut = match &luts[i] {
            Err(e) => {
                return Err(*e);
            },
            Ok(l) => l,
        };
        if link || single_named || !is_input {
            let converts = !(link || single_named) || (hd.device_class == ProfileClass::Abstract && i > 0);
            let added = if converts {
                match &convs[i] {
                    Err(e) => {
                        return Err(*e);
                    },
                    Ok(c) => add_conversion(&mut result, current, space_in, &c.0, &c.1, c.2),
                }
            } else {
                let id: [u64; 9] = [
                    0x3FF0_0000_0000_0000u64,
                    0,
                    0,
                    0,
                    0x3FF0_0000_0000_0000u64,
                    0,
                    0,
                    0,
                    0x3FF0_0000_0000_0000u64,
                ];
                let zero: [u64; 3] = [0, 0, 0];
                proof {
                    assert(id@ =~= identity_bits());
                    assert(zero@ =~= seq![0u64, 0, 0]);
                }
                add_conversion(&mut result, current, space_in, &id, &zero, true)
            };
            match added {
                Err(e) => {
                    return Err(e);
                },
                Ok(()) => {},
            }
        }
        match result.concat(lut) {
            Err(e) => {
                return Err(e);
            },
            Ok(()) => {},
        }
        current = out;
        i += 1;
    }
    let ghost a = pipe_of(result);
    proof {
        assert(chain_from(h, luts@, convs@, n as int, a) == Ok::<(int, int, Seq<StageV>), Error>(a));
        assert(icc_chain(h, luts@, convs@) == Ok::<(int, int, Seq<StageV>), Error>(a));
        assert(space_out == leg_spaces(h, h.len() - 1).1);
    }
    result.pre_optimize(merge);
    proof {
        assert(pipe_of(result).1 == a.1);
    }
    let last = headers[n - 1];
    if !(n == 1 && last.device_class == ProfileClass::NamedColor) {
        match channels_of_color_space(space_out) {
            Some(c) => {
                if result.output_width() != c {
                    return Err(
                        Error::Corrupt("final pipeline output width does not match output color space channels"),
                    );
                }
            },
            None => {},
        }
    }
    proof {
        assert(!width_mismatch(h, a.1));
        assert(result.ic() == a.0);
        assert(exists|rs: Seq<Option<Vec<u64>>>| simplified_by(merge, a.2, rs, result.sv()));
    }
    Ok(result)
}

} // verus!
