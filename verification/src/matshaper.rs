//! The 1.14 fixed-point matrix-shaper evaluator: an RGB pixel that came
//! from 8-bit data goes through three input shaper tables, a 3x3 matrix
//! with offset in 1.14 fixed point, a clip to [0, 1] and three output
//! shaper tables.

use vstd::prelude::*;
use crate::curve::ToneCurve;
use crate::pipeline::{curves_view, Pipeline, Stage, StageV};

verus! {

/// Entries of each output shaper table: the 1.14 values 0 through 16384.
pub const SHAPER2_LEN: usize = 16385;

/// The precomputed tables of a matrix shaper.
pub struct MatShaper8Data {
    /// Input curves at `i / 255`, in 1.14 fixed point.
    shaper1: [[i32; 256]; 3],
    /// The matrix in 1.14 fixed point, `mat[row][col]`.
    mat: [[i32; 3]; 3],
    /// The offset in 1.14 fixed point.
    off: [i32; 3],
    /// Output curves at `j / 16384`, as 16-bit values.
    shaper2: [Vec<u16>; 3],
}

impl MatShaper8Data {
    /// Input shaper `c` at byte `i`.
    pub closed spec fn s1(&self, c: int, i: int) -> i32 {
        self.shaper1[c][i]
    }

    /// Matrix entry at row `c`, column `j`.
    pub closed spec fn m(&self, c: int, j: int) -> i32 {
        self.mat[c][j]
    }

    /// Offset of row `c`.
    pub closed spec fn o(&self, c: int) -> i32 {
        self.off[c]
    }

    /// Output shaper `c`.
    pub closed spec fn s2(&self, c: int) -> Seq<u16> {
        self.shaper2[c]@
    }

    pub closed spec fn wf(&self) -> bool {
        forall|c: int| 0 <= c < 3 ==> #[trigger] self.shaper2[c]@.len() == SHAPER2_LEN
    }

    /// Assemble the evaluator from its tables.
    pub fn from_tables(
        shaper1: [[i32; 256]; 3],
        mat: [[i32; 3]; 3],
        off: [i32; 3],
        shaper2: [Vec<u16>; 3],
    ) -> (d: MatShaper8Data)
        requires
            shaper2[0]@.len() == SHAPER2_LEN,
            shaper2[1]@.len() == SHAPER2_LEN,
            shaper2[2]@.len() == SHAPER2_LEN,
        ensures
            d.wf(),
            forall|c: int, i: int| 0 <= c < 3 && 0 <= i < 256 ==> #[trigger] d.s1(c, i) == shaper1[c][i],
            forall|c: int, j: int| 0 <= c < 3 && 0 <= j < 3 ==> #[trigger] d.m(c, j) == mat[c][j],
            forall|c: int| 0 <= c < 3 ==> #[trigger] d.o(c) == off[c],
            forall|c: int| 0 <= c < 3 ==> #[trigger] d.s2(c) == shaper2[c]@,
    {
        let d = MatShaper8Data { shaper1, mat, off, shaper2 };
        assert forall|c: int| 0 <= c < 3 implies #[trigger] d.shaper2[c]@.len() == SHAPER2_LEN by {
            if c == 0 {
            } else if c == 1 {
            } else {
            }
        }
        d
    }
}

/// The three 1.14 partial sums of row `c` before the offset, in evaluation
/// order, and the full sum with offset and rounding constant.
pub open spec fn row_terms(d: MatShaper8Data, c: int, input: [u16; 3]) -> (int, int, int, int, int) {
    let r = d.s1(0, (input[0] & 0xff) as int) as int;
    let g = d.s1(1, (input[1] & 0xff) as int) as int;
    let b = d.s1(2, (input[2] & 0xff) as int) as int;
    let p1 = d.m(c, 0) * r;
    let p2 = p1 + d.m(c, 1) * g;
    let p3 = p2 + d.m(c, 2) * b;
    let p4 = p3 + d.o(c);
    (p1, p2, p3, p4, p4 + 0x2000)
}

pub open spec fn in_i32(x: int) -> bool {
    i32::MIN <= x <= i32::MAX
}

/// Every product and partial sum of row `c` fits a 32-bit signed integer.
pub open spec fn row_fits(d: MatShaper8Data, c: int, input: [u16; 3]) -> bool {
    let r = d.s1(0, (input[0] & 0xff) as int) as int;
    let g = d.s1(1, (input[1] & 0xff) as int) as int;
    let b = d.s1(2, (input[2] & 0xff) as int) as int;
    let (p1, p2, p3, p4, p5) = row_terms(d, c, input);
    &&& in_i32(d.m(c, 0) * r)
    &&& in_i32(d.m(c, 1) * g)
    &&& in_i32(d.m(c, 2) * b)
    &&& in_i32(p2)
    &&& in_i32(p3)
    &&& in_i32(p4)
    &&& in_i32(p5)
}

/// The clip of a 1.14 value to [0, 16384].
pub open spec fn clip14(l: int) -> int {
    if l < 0 {
        0
    } else if l > 16384 {
        16384
    } else {
        l
    }
}

/// Output channel `c`: the row sum rounded to the nearest 1.14 unit (floor
/// of the sum plus one half, which the arithmetic shift takes), clipped,
/// looked up in output shaper `c`.
pub open spec fn shaped(d: MatShaper8Data, c: int, input: [u16; 3]) -> u16 {
    d.s2(c)[clip14(row_terms(d, c, input).4 / 16384)]
}

/// Clip a 1.14 value to [0, 16384] as an index.
pub fn clip_1fixed14(l: i32) -> (r: usize)
    ensures
        r == clip14(l as int),
{
    if l < 0 {
        0
    } else if l > 16384 {
        16384
    } else {
        l as usize
    }
}

proof fn lemma_shift14(x: i32)
    ensures
        (x >> 14u32) as int == (x as int) / 16384,
{
    assert(x >= 0 ==> (x >> 14u32) == x / 16384) by (bit_vector);
    if x < 0 {
        let y: i32 = x;
        assert(y < 0 ==> (y >> 14u32) == -(((-(y as i64) - 1) / 16384) as i32) - 1) by (bit_vector);
        let q = (-(x as int) - 1) / 16384;
        assert(x as int == -(16384 * q) - 1 - ((-(x as int) - 1) % 16384));
        assert((x as int) / 16384 == -q - 1);
    }
}

fn row(d: &MatShaper8Data, c: usize, r: i32, g: i32, b: i32, Ghost(input): Ghost<[u16; 3]>) -> (v: usize)
    requires
        c < 3,
        d.wf(),
        r == d.s1(0, (input[0] & 0xff) as int),
        g == d.s1(1, (input[1] & 0xff) as int),
        b == d.s1(2, (input[2] & 0xff) as int),
        row_fits(*d, c as int, input),
    ensures
        v == clip14(row_terms(*d, c as int, input).4 / 16384),
        v < SHAPER2_LEN,
{
    let s: i32 = d.mat[c][0] * r + d.mat[c][1] * g + d.mat[c][2] * b + d.off[c] + 0x2000;
    let l = s >> 14u32;
    proof {
        lemma_shift14(s);
    }
    clip_1fixed14(l)
}

impl MatShaper8Data {
    /// Evaluate one pixel whose channels came from 8-bit values (the low
    /// byte of each indexes the input shaper).
    pub fn eval(&self, input: &[u16; 3]) -> (out: [u16; 3])
        requires
            self.wf(),
            row_fits(*self, 0, *input),
            row_fits(*self, 1, *input),
            row_fits(*self, 2, *input),
        ensures
            out[0] == shaped(*self, 0, *input),
            out[1] == shaped(*self, 1, *input),
            out[2] == shaped(*self, 2, *input),
    {
        let (i0, i1, i2) = (input[0], input[1], input[2]);
        assert(i0 & 0xff < 256) by (bit_vector);
        assert(i1 & 0xff < 256) by (bit_vector);
        assert(i2 & 0xff < 256) by (bit_vector);
        let ri = (i0 & 0xff) as usize;
        let gi = (i1 & 0xff) as usize;
        let bi = (i2 & 0xff) as usize;
        let r = self.shaper1[0][ri];
        let g = self.shaper1[1][gi];
        let b = self.shaper1[2][bi];
        let ro = row(self, 0, r, g, b, Ghost(*input));
        let go = row(self, 1, r, g, b, Ghost(*input));
        let bo = row(self, 2, r, g, b, Ghost(*input));
        assert(self.shaper2[0]@.len() == SHAPER2_LEN);
        assert(self.shaper2[1]@.len() == SHAPER2_LEN);
        assert(self.shaper2[2]@.len() == SHAPER2_LEN);
        [self.shaper2[0][ro], self.shaper2[1][go], self.shaper2[2][bo]]
    }
}

// ------------------------------------------------------------ shape detection

/// The channel count of a format word.
pub open spec fn fmt_channels(f: u32) -> u32 {
    (f >> 3u32) & 15u32
}

/// The bytes per sample of a format word (0 for doubles).
pub open spec fn fmt_bytes(f: u32) -> u32 {
    f & 7u32
}

/// Whether a format word holds floating-point samples.
pub open spec fn fmt_float(f: u32) -> bool {
    (f >> 22u32) & 1u32 == 1
}

/// A stage of exactly three tone curves.
pub open spec fn is_curves3(s: StageV) -> bool {
    s matches StageV::ToneCurves(c) && c.len() == 3
}

/// A 3 x 3 matrix stage.
pub open spec fn is_mat3x3(s: StageV) -> bool {
    s matches StageV::Matrix { rows, cols, .. } && rows == 3 && cols == 3
}

/// Formats the matrix-shaper paths take: three channels in and out, 8-bit
/// input, no floating point on either side.
pub open spec fn rgb8_formats(in_fmt: u32, out_fmt: u32) -> bool {
    &&& fmt_channels(in_fmt) == 3
    &&& fmt_channels(out_fmt) == 3
    &&& fmt_bytes(in_fmt) == 1
    &&& !fmt_float(in_fmt)
    &&& !fmt_float(out_fmt)
}

/// The curves of a stage of exactly three tone curves.
pub fn tone_curves_3(stage: &Stage) -> (r: Option<&[ToneCurve]>)
    ensures
        r is Some <==> is_curves3(stage@),
        r matches Some(c) ==> stage@ == StageV::ToneCurves(curves_view(c@)),
{
    match stage {
        Stage::ToneCurves(c) => {
            if c.len() == 3 {
                Some(c.as_slice())
            } else {
                None
            }
        },
        _ => None,
    }
}

/// A copy of a stage that is a 3 x 3 matrix.
pub fn matrix_3x3(stage: &Stage) -> (r: Option<Stage>)
    ensures
        r is Some <==> is_mat3x3(stage@),
        r matches Some(s) ==> s@ == stage@,
{
    match stage {
        Stage::Matrix { rows, cols, .. } => {
            if *rows == 3 && *cols == 3 {
                Some(stage.dup())
            } else {
                None
            }
        },
        _ => None,
    }
}

fn rgb8(in_fmt: u32, out_fmt: u32) -> (r: bool)
    ensures
        r == rgb8_formats(in_fmt, out_fmt),
{
    (in_fmt >> 3u32) & 15u32 == 3 && (out_fmt >> 3u32) & 15u32 == 3 && in_fmt & 7u32 == 1 && (in_fmt
        >> 22u32) & 1u32 != 1 && (out_fmt >> 22u32) & 1u32 != 1
}

/// Whether the lossless matrix-shaper path applies: matrix-shaper formats
/// and exactly the stages curves, 3 x 3 matrix, curves (adjacent matrices
/// were merged before, so no other shape is taken).
pub open spec fn lossless_shape(sv: Seq<StageV>, in_fmt: u32, out_fmt: u32) -> bool {
    &&& rgb8_formats(in_fmt, out_fmt)
    &&& sv.len() == 3
    &&& is_curves3(sv[0])
    &&& is_mat3x3(sv[1])
    &&& is_curves3(sv[2])
}

/// Whether the lossless matrix-shaper path applies to `lut` (see
/// [`lossless_shape`]).
pub fn fits_lossless_matshaper(lut: &Pipeline, in_fmt: u32, out_fmt: u32) -> (r: bool)
    ensures
        r == lossless_shape(lut.sv(), in_fmt, out_fmt),
{
    if !rgb8(in_fmt, out_fmt) {
        return false;
    }
    let st = lut.stages();
    if st.len() != 3 {
        return false;
    }
    proof {
        assert(st@[0]@ == lut.sv()[0]);
        assert(st@[1]@ == lut.sv()[1]);
        assert(st@[2]@ == lut.sv()[2]);
    }
    tone_curves_3(&st[0]).is_some() && matrix_3x3(&st[1]).is_some() && tone_curves_3(&st[2]).is_some()
}

/// Which pipeline shape the matrix-shaper optimization fires on.
#[derive(Clone, Copy, Debug, PartialEq, Eq, Structural)]
pub enum MatShaperShape {
    /// Curves, 3 x 3 matrix, curves.
    OneMatrix,
    /// Curves, two 3 x 3 matrices (the first without offset), curves.
    TwoMatrices,
}

/// The shape the matrix-shaper optimization fires on, if any: matrix-shaper
/// formats and curves, one or two 3 x 3 matrices, curves; the first of two
/// matrices must have no offset.
pub open spec fn matshaper_shape_of(sv: Seq<StageV>, in_fmt: u32, out_fmt: u32) -> Option<MatShaperShape> {
    if !rgb8_formats(in_fmt, out_fmt) {
        None
    } else if sv.len() == 4 {
        if is_curves3(sv[0]) && is_mat3x3(sv[1]) && is_mat3x3(sv[2]) && is_curves3(sv[3]) && sv[1]->offset is None {
            Some(MatShaperShape::TwoMatrices)
        } else {
            None
        }
    } else if sv.len() == 3 && is_curves3(sv[0]) && is_mat3x3(sv[1]) && is_curves3(sv[2]) {
        Some(MatShaperShape::OneMatrix)
    } else {
        None
    }
}

/// The shape the matrix-shaper optimization fires on in `lut` (see
/// [`matshaper_shape_of`]); whether the merged matrix is the identity is
/// left to the caller.
pub fn matshaper_shape(lut: &Pipeline, in_fmt: u32, out_fmt: u32) -> (r: Option<MatShaperShape>)
    ensures
        r == matshaper_shape_of(lut.sv(), in_fmt, out_fmt),
{
    if !rgb8(in_fmt, out_fmt) {
        return None;
    }
    let st = lut.stages();
    let n = st.len();
    if n == 4 {
        proof {
            assert(st@[0]@ == lut.sv()[0]);
            assert(st@[1]@ == lut.sv()[1]);
            assert(st@[2]@ == lut.sv()[2]);
            assert(st@[3]@ == lut.sv()[3]);
        }
        if tone_curves_3(&st[0]).is_none() || matrix_3x3(&st[1]).is_none() || matrix_3x3(&st[2]).is_none()
            || tone_curves_3(&st[3]).is_none() {
            return None;
        }
        let no_offset = match &st[1] {
            Stage::Matrix { offset, .. } => offset.is_none(),
            _ => false,
        };
        if !no_offset {
            return None;
        }
        Some(MatShaperShape::TwoMatrices)
    } else if n == 3 {
        proof {
            assert(st@[0]@ == lut.sv()[0]);
            assert(st@[1]@ == lut.sv()[1]);
            assert(st@[2]@ == lut.sv()[2]);
        }
        if tone_curves_3(&st[0]).is_some() && matrix_3x3(&st[1]).is_some() && tone_curves_3(&st[2]).is_some() {
            Some(MatShaperShape::OneMatrix)
        } else {
            None
        }
    } else {
        None
    }
}

// ------------------------------------------------------------ laws

/// Each output channel is read from that channel's own output shaper: channel
/// `c` is an entry of output table `c`, at an index in 0..=16384.
pub proof fn lemma_matshaper_own_table(d: MatShaper8Data, c: int, input: [u16; 3])
    requires
        0 <= c < 3,
    ensures
        exists|k: int| 0 <= k <= 16384 && shaped(d, c, input) == #[trigger] d.s2(c)[k],
{
    let k = clip14(row_terms(d, c, input).4 / 16384);
    assert(shaped(d, c, input) == d.s2(c)[k]);
}

/// Output channel `c` depends on output shaper `c` and on no other output
/// shaper: two evaluators with the same input shapers, the same row `c` of
/// the matrix and offset, and the same output shaper `c` give the same
/// channel `c`, whatever their other output shapers hold.
pub proof fn lemma_matshaper_channel_independent(
    d1: MatShaper8Data,
    d2: MatShaper8Data,
    c: int,
    input: [u16; 3],
)
    requires
        0 <= c < 3,
        forall|ch: int, i: int| 0 <= ch < 3 && 0 <= i < 256 ==> #[trigger] d1.s1(ch, i) == d2.s1(ch, i),
        forall|j: int| 0 <= j < 3 ==> #[trigger] d1.m(c, j) == d2.m(c, j),
        d1.o(c) == d2.o(c),
        d1.s2(c) == d2.s2(c),
    ensures
        shaped(d1, c, input) == shaped(d2, c, input),
{
    let (i0, i1, i2) = (input[0], input[1], input[2]);
    assert(i0 & 0xff < 256) by (bit_vector);
    assert(i1 & 0xff < 256) by (bit_vector);
    assert(i2 & 0xff < 256) by (bit_vector);
    assert(d1.s1(0, (input[0] & 0xff) as int) == d2.s1(0, (input[0] & 0xff) as int));
    assert(d1.s1(1, (input[1] & 0xff) as int) == d2.s1(1, (input[1] & 0xff) as int));
    assert(d1.s1(2, (input[2] & 0xff) as int) == d2.s1(2, (input[2] & 0xff) as int));
    assert(d1.m(c, 0) == d2.m(c, 0));
    assert(d1.m(c, 1) == d2.m(c, 1));
    assert(d1.m(c, 2) == d2.m(c, 2));
    assert(row_terms(d1, c, input) == row_terms(d2, c, input));
}

/// With the identity matrix (1.0 on the diagonal, in 1.14) and no offset,
/// output channel `c` is output shaper `c` at the value input shaper `c`
/// gives for channel `c`'s byte, when that value is in [0, 1].
pub proof fn lemma_matshaper_identity(d: MatShaper8Data, c: int, input: [u16; 3])
    requires
        0 <= c < 3,
        forall|j: int| 0 <= j < 3 ==> #[trigger] d.m(c, j) == if j == c {
            16384i32
        } else {
            0i32
        },
        d.o(c) == 0,
        0 <= d.s1(c, (input[c] & 0xff) as int) <= 16384,
    ensures
        shaped(d, c, input) == d.s2(c)[d.s1(c, (input[c] & 0xff) as int) as int],
{
    let v = d.s1(c, (input[c] & 0xff) as int) as int;
    assert(d.m(c, 0) == if c == 0 { 16384i32 } else { 0i32 });
    assert(d.m(c, 1) == if c == 1 { 16384i32 } else { 0i32 });
    assert(d.m(c, 2) == if c == 2 { 16384i32 } else { 0i32 });
    assert(row_terms(d, c, input).4 == 16384 * v + 0x2000);
    assert((16384 * v + 0x2000) / 16384 == v);
}

} // verus!
