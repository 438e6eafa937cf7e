//! PostScript Level 2 color resources: the text buffer with the column
//! counter that wraps the hex dump of a CLUT, the fixed PostScript blocks
//! of color space arrays and color rendering dictionaries, and the CLUT
//! dump itself with its white-point fix-up.

use vstd::prelude::*;
use vstd::string::StrSliceExecFns;
use crate::gamut::{grid_node, prod_to, quantize, quantize_val};
use crate::header::{intent_code, ColorSpace, RenderingIntent};
use crate::lut::prod_from;
use crate::text::{dec_int, push_all, push_dec, string_push, tb};

verus! {

/// Past this column the hex dump of a CLUT starts a new line.
pub const MAXPSCOLS: i32 = 60;

/// The growing PostScript text and the column of the hex dump.
pub struct Ps {
    pub buf: Vec<u8>,
    pub col: i32,
}

/// A lower-case hexadecimal digit.
pub open spec fn hex_lc(d: int) -> u8 {
    if d < 10 {
        (48 + d) as u8
    } else {
        (87 + d) as u8
    }
}

/// A byte as two lower-case hexadecimal digits.
pub open spec fn hex_byte(b: u8) -> Seq<u8> {
    seq![hex_lc(b as int / 16), hex_lc(b as int % 16)]
}

/// Text and column after writing one hex byte: the column advances by two
/// and past `MAXPSCOLS` a newline follows and the column restarts at 0.
pub open spec fn after_byte(buf: Seq<u8>, col: int, b: u8) -> (Seq<u8>, int) {
    if col + 2 > MAXPSCOLS {
        (buf + hex_byte(b) + seq![10u8], 0)
    } else {
        (buf + hex_byte(b), col + 2)
    }
}

impl Ps {
    pub fn new() -> (m: Ps)
        ensures
            m.buf@ == Seq::<u8>::empty(),
            m.col == 0,
    {
        Ps { buf: Vec::new(), col: 0 }
    }

    /// Append text.
    pub fn s(&mut self, txt: &str)
        ensures
            final(self).buf@ == old(self).buf@ + tb(txt@),
            final(self).col == old(self).col,
    {
        push_all(&mut self.buf, txt.as_bytes());
    }

    /// Append a decimal integer (`%d`).
    pub fn d(&mut self, v: i64)
        ensures
            final(self).buf@ == old(self).buf@ + dec_int(v as int),
            final(self).col == old(self).col,
    {
        if v < 0 {
            self.buf.push(45u8);
            let m: i128 = -(v as i128);
            push_dec(&mut self.buf, m as u64);
        } else {
            push_dec(&mut self.buf, v as u64);
        }
    }

    /// Append a byte as two lower-case hex digits, wrapping the line past
    /// `MAXPSCOLS`.
    pub fn write_byte(&mut self, b: u8)
        requires
            old(self).col <= i32::MAX - 2,
        ensures
            (final(self).buf@, final(self).col as int) == after_byte(old(self).buf@, old(self).col as int, b),
    {
        let hi = b / 16;
        let lo = b % 16;
        self.buf.push(if hi < 10 {
            48 + hi
        } else {
            87 + hi
        });
        self.buf.push(if lo < 10 {
            48 + lo
        } else {
            87 + lo
        });
        self.col += 2;
        if self.col > MAXPSCOLS {
            self.buf.push(10u8);
            self.col = 0;
        }
        assert(self.buf@ =~= after_byte(old(self).buf@, old(self).col as int, b).0);
    }
}

/// A 16-bit value as the nearest byte, `w / 257` rounded half up.
pub open spec fn word_byte(w: u16) -> u8 {
    ((2 * w + 257) / 514) as u8
}

pub fn word2byte(w: u16) -> (r: u8)
    ensures
        r == word_byte(w),
{
    ((2 * (w as u32) + 257) / 514) as u8
}

/// Whether two white points agree: compared channel by channel over the
/// shorter of the two, a difference above 0xf000 ends the comparison as
/// equal (a wrapped-around white), any other difference as unequal.
pub open spec fn whites_equal(a: Seq<u16>, b: Seq<u16>) -> bool
    decreases a.len(),
{
    if a.len() == 0 || b.len() == 0 {
        true
    } else {
        let diff = a[0] as int - b[0] as int;
        if diff > 0xf000 || -diff > 0xf000 {
            true
        } else if diff != 0 {
            false
        } else {
            whites_equal(a.drop_first(), b.drop_first())
        }
    }
}

pub fn whites_are_equal(w1: &[u16], w2: &[u16]) -> (r: bool)
    ensures
        r == whites_equal(w1@, w2@),
{
    let n = if w1.len() < w2.len() {
        w1.len()
    } else {
        w2.len()
    };
    let mut i: usize = 0;
    assert(w1@.subrange(0, w1@.len() as int) =~= w1@);
    assert(w2@.subrange(0, w2@.len() as int) =~= w2@);
    while i < n
        invariant
            i <= n,
            n <= w1@.len(),
            n <= w2@.len(),
            n == w1@.len() || n == w2@.len(),
            whites_equal(w1@, w2@) == whites_equal(w1@.subrange(i as int, w1@.len() as int), w2@.subrange(i as int, w2@.len() as int)),
        decreases n - i,
    {
        let ghost a = w1@.subrange(i as int, w1@.len() as int);
        let ghost b = w2@.subrange(i as int, w2@.len() as int);
        let x = w1[i];
        let y = w2[i];
        assert(a[0] == x && b[0] == y);
        if (x as i32 - y as i32) > 0xf000 || (y as i32 - x as i32) > 0xf000 {
            return true;
        }
        if x != y {
            return false;
        }
        assert(a.drop_first() =~= w1@.subrange(i + 1, w1@.len() as int));
        assert(b.drop_first() =~= w2@.subrange(i + 1, w2@.len() as int));
        i += 1;
    }
    assert(w1@.subrange(i as int, w1@.len() as int).len() == 0 || w2@.subrange(i as int, w2@.len() as int).len() == 0);
    true
}

/// The channel count of the spaces color resources are written for.
pub open spec fn ps_channels(cs: ColorSpace) -> Option<usize> {
    match cs {
        ColorSpace::Gray => Some(1usize),
        ColorSpace::Rgb | ColorSpace::Lab | ColorSpace::XYZ | ColorSpace::Cmy => Some(3usize),
        ColorSpace::Cmyk => Some(4usize),
        _ => None,
    }
}

pub fn channels_of(cs: ColorSpace) -> (r: Option<usize>)
    ensures
        r == ps_channels(cs),
{
    match cs {
        ColorSpace::Gray => Some(1),
        ColorSpace::Rgb | ColorSpace::Lab | ColorSpace::XYZ | ColorSpace::Cmy => Some(3),
        ColorSpace::Cmyk => Some(4),
        _ => None,
    }
}

/// The white end point of a space as 16-bit values, with its channel count.
pub open spec fn white_of(cs: ColorSpace) -> Option<(Seq<u16>, usize)> {
    match cs {
        ColorSpace::Gray => Some((seq![0xffffu16], 1usize)),
        ColorSpace::Rgb => Some((seq![0xffffu16, 0xffff, 0xffff], 3usize)),
        ColorSpace::Lab => Some((seq![0xffffu16, 0x8080, 0x8080], 3usize)),
        ColorSpace::Cmyk => Some((seq![0u16, 0, 0, 0], 4usize)),
        ColorSpace::Cmy => Some((seq![0u16, 0, 0], 3usize)),
        _ => None,
    }
}

pub fn white_point_by_space(cs: ColorSpace) -> (r: Option<(Vec<u16>, usize)>)
    ensures
        match white_of(cs) {
            Some((w, n)) => r matches Some((v, k)) && v@ == w && k == n,
            None => r is None,
        },
{
    let r = match cs {
        ColorSpace::Gray => Some((vec![0xffffu16], 1)),
        ColorSpace::Rgb => Some((vec![0xffffu16, 0xffff, 0xffff], 3)),
        ColorSpace::Lab => Some((vec![0xffffu16, 0x8080, 0x8080], 3)),
        ColorSpace::Cmyk => Some((vec![0u16, 0, 0, 0], 4)),
        ColorSpace::Cmy => Some((vec![0u16, 0, 0], 3)),
        _ => None,
    };
    proof {
        match &r {
            Some((v, _)) => {
                match white_of(cs) {
                    Some((w, _)) => {
                        assert(v@ =~= w);
                    },
                    None => {},
                }
            },
            None => {},
        }
    }
    r
}

/// Grid points per axis when a device link is sampled into a CLUT: 17 for
/// four channels, 33 for fewer (and for spaces of unknown channel count).
pub open spec fn gridpoints_of(cs: ColorSpace) -> u32 {
    let n = match ps_channels(cs) {
        Some(n) => n,
        None => 3usize,
    };
    if n > 4 {
        7
    } else if n == 4 {
        17
    } else {
        33
    }
}

pub fn reasonable_gridpoints(cs: ColorSpace) -> (r: u32)
    ensures
        r == gridpoints_of(cs),
{
    let n = match channels_of(cs) {
        Some(n) => n,
        None => 3,
    };
    if n > 4 {
        7
    } else if n == 4 {
        17
    } else {
        33
    }
}

/// Clamp the value on the stack into [0, 1].
pub fn emit_range_check(m: &mut Ps)
    ensures
        final(m).buf@ == old(m).buf@ + tb("dup 0.0 lt { pop 0.0 } if dup 1.0 gt { pop 1.0 } if "@),
        final(m).col == old(m).col,
{
    m.s("dup 0.0 lt { pop 0.0 } if dup 1.0 gt { pop 1.0 } if ");
}

/// The name of a rendering intent in a resource.
pub open spec fn intent_name(intent: u32) -> &'static str {
    if intent == 0 {
        "Perceptual"
    } else if intent == 1 {
        "RelativeColorimetric"
    } else if intent == 3 {
        "AbsoluteColorimetric"
    } else if intent == 2 {
        "Saturation"
    } else {
        "Undefined"
    }
}

/// The `/RenderingIntent` entry.
pub fn emit_intent(m: &mut Ps, intent: u32)
    ensures
        final(m).buf@ == old(m).buf@ + tb("/RenderingIntent ("@) + tb(intent_name(intent)@) + tb(
            ")\n"@,
        ),
        final(m).col == old(m).col,
{
    let s = if intent == 0 {
        "Perceptual"
    } else if intent == 1 {
        "RelativeColorimetric"
    } else if intent == 3 {
        "AbsoluteColorimetric"
    } else if intent == 2 {
        "Saturation"
    } else {
        "Undefined"
    };
    m.s("/RenderingIntent (");
    m.s(s);
    m.s(")\n");
}

/// The Lab-to-XYZ decoding of a CIE-based color space array.
pub open spec fn lab2xyz_text() -> Seq<u8> {
    tb(
        "/RangeABC [ 0 1 0 1 0 1]\n/DecodeABC [\n{100 mul  16 add 116 div } bind\n{255 mul 128 sub 500 div } bind\n{255 mul 128 sub 200 div } bind\n]\n/MatrixABC [ 1 1 1 1 0 0 0 0 -1]\n/RangeLMN [ -0.236 1.254 0 1 -0.635 1.640 ]\n/DecodeLMN [\n{dup 6 29 div ge {dup dup mul mul} {4 29 div sub 108 841 div mul} ifelse 0.964200 mul} bind\n{dup 6 29 div ge {dup dup mul mul} {4 29 div sub 108 841 div mul} ifelse } bind\n{dup 6 29 div ge {dup dup mul mul} {4 29 div sub 108 841 div mul} ifelse 0.824900 mul} bind\n]\n"@,
    )
}

pub fn emit_lab2xyz(m: &mut Ps)
    ensures
        final(m).buf@ == old(m).buf@ + lab2xyz_text(),
        final(m).col == old(m).col,
{
    m.s(
        "/RangeABC [ 0 1 0 1 0 1]\n/DecodeABC [\n{100 mul  16 add 116 div } bind\n{255 mul 128 sub 500 div } bind\n{255 mul 128 sub 200 div } bind\n]\n/MatrixABC [ 1 1 1 1 0 0 0 0 -1]\n/RangeLMN [ -0.236 1.254 0 1 -0.635 1.640 ]\n/DecodeLMN [\n{dup 6 29 div ge {dup dup mul mul} {4 29 div sub 108 841 div mul} ifelse 0.964200 mul} bind\n{dup 6 29 div ge {dup dup mul mul} {4 29 div sub 108 841 div mul} ifelse } bind\n{dup 6 29 div ge {dup dup mul mul} {4 29 div sub 108 841 div mul} ifelse 0.824900 mul} bind\n]\n",
    );
}

/// The XYZ-to-Lab encoding of a color rendering dictionary.
pub open spec fn xyz2lab_text() -> Seq<u8> {
    tb(
        "/RangeLMN [ -0.635 2.0 0 2 -0.635 2.0 ]\n/EncodeLMN [\n{ 0.964200  div dup 0.008856 le {7.787 mul 16 116 div add}{1 3 div exp} ifelse } bind\n{ 1.000000  div dup 0.008856 le {7.787 mul 16 116 div add}{1 3 div exp} ifelse } bind\n{ 0.824900  div dup 0.008856 le {7.787 mul 16 116 div add}{1 3 div exp} ifelse } bind\n]\n/MatrixABC [ 0 1 0 1 -1 1 0 0 -1 ]\n/EncodeABC [\n{ 116 mul  16 sub 100 div  } bind\n{ 500 mul 128 add 256 div  } bind\n{ 200 mul 128 add 256 div  } bind\n]\n"@,
    )
}

pub fn emit_xyz2lab(m: &mut Ps)
    ensures
        final(m).buf@ == old(m).buf@ + xyz2lab_text(),
        final(m).col == old(m).col,
{
    m.s(
        "/RangeLMN [ -0.635 2.0 0 2 -0.635 2.0 ]\n/EncodeLMN [\n{ 0.964200  div dup 0.008856 le {7.787 mul 16 116 div add}{1 3 div exp} ifelse } bind\n{ 1.000000  div dup 0.008856 le {7.787 mul 16 116 div add}{1 3 div exp} ifelse } bind\n{ 0.824900  div dup 0.008856 le {7.787 mul 16 116 div add}{1 3 div exp} ifelse } bind\n]\n/MatrixABC [ 0 1 0 1 -1 1 0 0 -1 ]\n/EncodeABC [\n{ 116 mul  16 sub 100 div  } bind\n{ 500 mul 128 add 256 div  } bind\n{ 200 mul 128 add 256 div  } bind\n]\n",
    );
}

/// The Bradford-cone-space chromatic adaptation of a color rendering
/// dictionary, with black-point compensation when `do_bpc`.
pub open spec fn pqr_relative_text(do_bpc: bool) -> Seq<u8> {
    tb(
        "% Bradford Cone Space\n/MatrixPQR [0.8951 -0.7502 0.0389 0.2664 1.7135 -0.0685 -0.1614 0.0367 1.0296 ] \n/RangePQR [ -0.5 2 -0.5 2 -0.5 2 ]\n"@,
    ) + if !do_bpc {
        tb(
            "% VonKries-like transform in Bradford Cone Space\n/TransformPQR [\n{exch pop exch 3 get mul exch pop exch 3 get div} bind\n{exch pop exch 4 get mul exch pop exch 4 get div} bind\n{exch pop exch 5 get mul exch pop exch 5 get div} bind\n]\n"@,
        )
    } else {
        tb(
            "% VonKries-like transform in Bradford Cone Space plus BPC\n/TransformPQR [\n{4 index 3 get div 2 index 3 get mul 2 index 3 get 2 index 3 get sub mul 2 index 3 get 4 index 3 get 3 index 3 get sub mul sub 3 index 3 get 3 index 3 get exch sub div exch pop exch pop exch pop exch pop } bind\n{4 index 4 get div 2 index 4 get mul 2 index 4 get 2 index 4 get sub mul 2 index 4 get 4 index 4 get 3 index 4 get sub mul sub 3 index 4 get 3 index 4 get exch sub div exch pop exch pop exch pop exch pop } bind\n{4 index 5 get div 2 index 5 get mul 2 index 5 get 2 index 5 get sub mul 2 index 5 get 4 index 5 get 3 index 5 get sub mul sub 3 index 5 get 3 index 5 get exch sub div exch pop exch pop exch pop exch pop } bind\n]\n"@,
        )
    }
}

/// The absolute-colorimetric PQR block, given the media white point's
/// three components already rendered as text (`%g`).
pub open spec fn pqr_absolute_text(x: Seq<char>, y: Seq<char>, z: Seq<char>) -> Seq<u8> {
    tb(
        "/MatrixPQR [1 0 0 0 1 0 0 0 1 ]\n/RangePQR [ -0.5 2 -0.5 2 -0.5 2 ]\n% Absolute colorimetric -- encode to relative to maximize LUT usage\n/TransformPQR [\n{0.9642 mul "@,
    ) + tb(x) + tb(" div exch pop exch pop exch pop exch pop} bind\n{1.0000 mul "@) + tb(y) + tb(
        " div exch pop exch pop exch pop exch pop} bind\n{0.8249 mul "@,
    ) + tb(z) + tb(" div exch pop exch pop exch pop exch pop} bind\n]\n"@)
}

/// The PQR (chromatic adaptation) stage of a color rendering dictionary:
/// for absolute colorimetric, given the rendered media white point, a
/// scaling to relative; otherwise the Bradford von Kries transform, with
/// black-point compensation when `do_bpc`.
pub fn emit_pqr_stage(m: &mut Ps, do_bpc: bool, absolute_white: Option<(&str, &str, &str)>)
    ensures
        final(m).col == old(m).col,
        final(m).buf@ == old(m).buf@ + match absolute_white {
            Some((x, y, z)) => pqr_absolute_text(x@, y@, z@),
            None => pqr_relative_text(do_bpc),
        },
{
    match absolute_white {
        Some((x, y, z)) => {
            m.s(
                "/MatrixPQR [1 0 0 0 1 0 0 0 1 ]\n/RangePQR [ -0.5 2 -0.5 2 -0.5 2 ]\n% Absolute colorimetric -- encode to relative to maximize LUT usage\n/TransformPQR [\n{0.9642 mul ",
            );
            m.s(x);
            m.s(" div exch pop exch pop exch pop exch pop} bind\n{1.0000 mul ");
            m.s(y);
            m.s(" div exch pop exch pop exch pop exch pop} bind\n{0.8249 mul ");
            m.s(z);
            m.s(" div exch pop exch pop exch pop exch pop} bind\n]\n");
            return;
        },
        None => {},
    }
    m.s(
        "% Bradford Cone Space\n/MatrixPQR [0.8951 -0.7502 0.0389 0.2664 1.7135 -0.0685 -0.1614 0.0367 1.0296 ] \n/RangePQR [ -0.5 2 -0.5 2 -0.5 2 ]\n",
    );
    if !do_bpc {
        m.s(
            "% VonKries-like transform in Bradford Cone Space\n/TransformPQR [\n{exch pop exch 3 get mul exch pop exch 3 get div} bind\n{exch pop exch 4 get mul exch pop exch 4 get div} bind\n{exch pop exch 5 get mul exch pop exch 5 get div} bind\n]\n",
        );
    } else {
        m.s(
            "% VonKries-like transform in Bradford Cone Space plus BPC\n/TransformPQR [\n{4 index 3 get div 2 index 3 get mul 2 index 3 get 2 index 3 get sub mul 2 index 3 get 4 index 3 get 3 index 3 get sub mul sub 3 index 3 get 3 index 3 get exch sub div exch pop exch pop exch pop exch pop } bind\n{4 index 4 get div 2 index 4 get mul 2 index 4 get 2 index 4 get sub mul 2 index 4 get 4 index 4 get 3 index 4 get sub mul sub 3 index 4 get 3 index 4 get exch sub div exch pop exch pop exch pop exch pop } bind\n{4 index 5 get div 2 index 5 get mul 2 index 5 get 2 index 5 get sub mul 2 index 5 get 4 index 5 get 3 index 5 get sub mul sub 3 index 5 get 3 index 5 get exch sub div exch pop exch pop exch pop exch pop } bind\n]\n",
        );
    }
}

/// Header text with line breaks turned into spaces, cut to 2047 characters.
pub open spec fn cr_removed(s: Seq<char>) -> Seq<char> {
    let n = if s.len() < 2047 {
        s.len()
    } else {
        2047
    };
    Seq::new(n, |i: int| if s[i] == '\n' || s[i] == '\r' {
        ' '
    } else {
        s[i]
    })
}

pub fn remove_cr(txt: &str) -> (r: String)
    ensures
        r@ == cr_removed(txt@),
{
    let len = txt.unicode_len();
    let n = if len < 2047 {
        len
    } else {
        2047
    };
    let mut out = String::new();
    let mut i: usize = 0;
    while i < n
        invariant
            i <= n,
            n as int == if txt@.len() < 2047 {
                txt@.len() as int
            } else {
                2047
            },
            out@ == cr_removed(txt@).subrange(0, i as int),
        decreases n - i,
    {
        let c = txt.get_char(i);
        let c2 = if c == '\n' || c == '\r' {
            ' '
        } else {
            c
        };
        string_push(&mut out, c2);
        i += 1;
        assert(out@ =~= cr_removed(txt@).subrange(0, i as int));
    }
    assert(out@ =~= cr_removed(txt@));
    out
}

/// A device link sampled into a CLUT: the grid points per input, the
/// output count and the table (output channels innermost, last input
/// fastest).
pub struct ForcedClut {
    pub table: Vec<u16>,
    pub n_samples: Vec<u32>,
    pub n_outputs: usize,
}

/// The settings and row state of a CLUT dump: the brackets around each run
/// of nodes sharing the first input (major) and the second (minor), whether
/// near-neutral L* = 100 nodes are forced to white, the output space, and
/// the first and second inputs of the current row (-1 before any).
pub struct ClutDump<'a> {
    pub pre_maj: &'a str,
    pub post_maj: &'a str,
    pub pre_min: &'a str,
    pub post_min: &'a str,
    pub fix_white: bool,
    pub color_space: ColorSpace,
    pub first_component: i64,
    pub second_component: i64,
}

/// The brackets of a dump as text.
pub open spec fn dump_cfg(d: ClutDump) -> (Seq<u8>, Seq<u8>, Seq<u8>, Seq<u8>) {
    (tb(d.pre_maj@), tb(d.post_maj@), tb(d.pre_min@), tb(d.post_min@))
}

/// The outputs of a node after the white fix: with the fix on, a node with
/// L* = 100 and a*, b* within 0x7800..=0x8800 takes the white of the
/// output space.
pub open spec fn white_fixed(fix: bool, cs: ColorSpace, input: Seq<u16>, out: Seq<u16>) -> Seq<u16> {
    if fix && input[0] == 0xFFFF && 0x7800 <= input[1] <= 0x8800 && 0x7800 <= input[2] <= 0x8800
        && white_of(cs) is Some {
        let (w, n) = white_of(cs)->0;
        Seq::new(out.len(), |i: int| if i < n {
            w[i]
        } else {
            out[i]
        })
    } else {
        out
    }
}

/// Text and column after writing the first `k` outputs as bytes.
pub open spec fn bytes_upto(buf: Seq<u8>, col: int, out: Seq<u16>, k: int) -> (Seq<u8>, int)
    decreases k,
{
    if k <= 0 {
        (buf, col)
    } else {
        let (b, c) = bytes_upto(buf, col, out, k - 1);
        after_byte(b, c, word_byte(out[k - 1]))
    }
}

/// One node of a dump: close and open the major and minor brackets when
/// the first or second input changes (a new major row also restarts the
/// column), then write the outputs as bytes.
pub open spec fn dump_step(
    cfg: (Seq<u8>, Seq<u8>, Seq<u8>, Seq<u8>),
    st: (Seq<u8>, int, int, int),
    input: Seq<u16>,
    out: Seq<u16>,
) -> (Seq<u8>, int, int, int) {
    let (pre_maj, post_maj, pre_min, post_min) = cfg;
    let (buf, col, first, second) = st;
    let (buf1, col1, first1, second1) = if input[0] as int != first {
        (
            buf + (if first != -1 {
                post_min + post_maj
            } else {
                Seq::empty()
            }) + pre_maj,
            0,
            input[0] as int,
            if first != -1 {
                -1
            } else {
                second
            },
        )
    } else {
        st
    };
    let (buf2, second2) = if input[1] as int != second1 {
        (
            buf1 + (if second1 != -1 {
                post_min
            } else {
                Seq::empty()
            }) + pre_min,
            input[1] as int,
        )
    } else {
        (buf1, second1)
    };
    let (buf3, col3) = bytes_upto(buf2, col1, out, out.len() as int);
    (buf3, col3, first1, second2)
}

/// Dump one node (see [`dump_step`]), applying the white fix to its
/// outputs in place.
pub fn output_value_sampler(m: &mut Ps, d: &mut ClutDump, input: &[u16], out: &mut [u16])
    requires
        input@.len() >= 2,
        old(d).fix_white && input@[0] == 0xFFFF ==> input@.len() >= 3,
        old(m).col <= i32::MAX - 2,
    ensures
        final(out)@ == white_fixed(old(d).fix_white, old(d).color_space, input@, old(out)@),
        (final(m).buf@, final(m).col as int, final(d).first_component as int, final(d).second_component as int)
            == dump_step(
            dump_cfg(*old(d)),
            (old(m).buf@, old(m).col as int, old(d).first_component as int, old(d).second_component as int),
            input@,
            final(out)@,
        ),
        final(m).col <= i32::MAX - 2,
        final(d).pre_maj == old(d).pre_maj,
        final(d).post_maj == old(d).post_maj,
        final(d).pre_min == old(d).pre_min,
        final(d).post_min == old(d).post_min,
        final(d).fix_white == old(d).fix_white,
        final(d).color_space == old(d).color_space,
{
    if d.fix_white && input[0] == 0xFFFF {
        if 0x7800 <= input[1] && input[1] <= 0x8800 && 0x7800 <= input[2] && input[2] <= 0x8800 {
            match white_point_by_space(d.color_space) {
                Some((white, n_out)) => {
                    let mut i: usize = 0;
                    while i < out.len() && i < n_out
                        invariant
                            d.fix_white,
                            input@.len() >= 3,
                            input@[0] == 0xFFFF,
                            0x7800 <= input@[1] <= 0x8800,
                            0x7800 <= input@[2] <= 0x8800,
                            i <= out@.len(),
                            i <= n_out,
                            out@.len() == old(out)@.len(),
                            white_of(d.color_space) is Some,
                            white_of(d.color_space) == Some((white@, n_out)),
                            white@.len() == n_out,
                            forall|j: int| 0 <= j < i ==> out@[j] == white@[j],
                            forall|j: int| i <= j < out@.len() ==> out@[j] == old(out)@[j],
                        decreases out@.len() - i,
                    {
                        out[i] = white[i];
                        i += 1;
                    }
                    let ghost wf = Seq::new(
                        old(out)@.len(),
                        |j: int| if j < n_out {
                            white@[j]
                        } else {
                            old(out)@[j]
                        },
                    );
                    assert(out@ =~= wf);
                    assert(wf == white_fixed(d.fix_white, d.color_space, input@, old(out)@));
                },
                None => {},
            }
        }
    }
    assert(out@ =~= white_fixed(old(d).fix_white, old(d).color_space, input@, old(out)@));
    let ghost cfg = dump_cfg(*d);
    let ghost st0 = (old(m).buf@, old(m).col as int, old(d).first_component as int, old(d).second_component as int);
    let ghost st1 = if input@[0] as int != st0.2 {
        (
            st0.0 + (if st0.2 != -1 {
                cfg.3 + cfg.1
            } else {
                Seq::empty()
            }) + cfg.0,
            0,
            input@[0] as int,
            if st0.2 != -1 {
                -1
            } else {
                st0.3
            },
        )
    } else {
        st0
    };
    if input[0] as i64 != d.first_component {
        if d.first_component != -1 {
            m.s(d.post_min);
            d.second_component = -1;
            m.s(d.post_maj);
        }
        m.col = 0;
        m.s(d.pre_maj);
        d.first_component = input[0] as i64;
    }
    assert((m.buf@, m.col as int, d.first_component as int, d.second_component as int) == st1);
    let ghost st2 = if input@[1] as int != st1.3 {
        (
            st1.0 + (if st1.3 != -1 {
                cfg.2 + Seq::empty()
            } else {
                Seq::empty()
            }),
            input@[1] as int,
        )
    } else {
        (st1.0, st1.3)
    };
    if input[1] as i64 != d.second_component {
        if d.second_component != -1 {
            m.s(d.post_min);
        }
        m.s(d.pre_min);
        d.second_component = input[1] as i64;
    }
    let ghost buf2 = m.buf@;
    let ghost col1 = m.col as int;
    let mut k: usize = 0;
    while k < out.len()
        invariant
            k <= out@.len(),
            (m.buf@, m.col as int) == bytes_upto(buf2, col1, out@, k as int),
            m.col <= i32::MAX - 2,
            col1 <= i32::MAX - 2,
        decreases out@.len() - k,
    {
        let b = word2byte(out[k]);
        m.write_byte(b);
        k += 1;
    }
    assert((m.buf@, m.col as int, d.first_component as int, d.second_component as int) == dump_step(
        cfg,
        st0,
        input@,
        out@,
    ));
}

/// The grid sizes of a dumped CLUT: ` n ` per input.
pub open spec fn dims_text(ns: Seq<u32>, k: int) -> Seq<u8>
    decreases k,
{
    if k <= 0 {
        Seq::empty()
    } else {
        dims_text(ns, k - 1) + tb(" "@) + dec_int(ns[k - 1] as int) + tb(" "@)
    }
}

/// The outputs of node `k` in a table.
pub open spec fn node_out(table: Seq<u16>, n_out: int, k: int) -> Seq<u16> {
    table.subrange(k * n_out, (k + 1) * n_out)
}

/// The dump state after the first `k` nodes.
pub open spec fn dump_nodes(
    cfg: (Seq<u8>, Seq<u8>, Seq<u8>, Seq<u8>),
    fix: bool,
    cs: ColorSpace,
    st: (Seq<u8>, int, int, int),
    ns: Seq<u32>,
    table: Seq<u16>,
    n_out: int,
    k: int,
) -> (Seq<u8>, int, int, int)
    decreases k,
{
    if k <= 0 {
        st
    } else {
        let input = grid_node(ns, k - 1);
        dump_step(
            cfg,
            dump_nodes(cfg, fix, cs, st, ns, table, n_out, k - 1),
            input,
            white_fixed(fix, cs, input, node_out(table, n_out, k - 1)),
        )
    }
}

proof fn lemma_node_range(k: int, n_out: int, total: int)
    requires
        0 <= k < total,
        0 <= n_out,
    ensures
        0 <= k * n_out,
        (k + 1) * n_out <= total * n_out,
        (k + 1) * n_out == k * n_out + n_out,
{
    assert((k + 1) * n_out <= total * n_out) by (nonlinear_arith)
        requires
            k + 1 <= total,
            0 <= n_out,
    ;
    assert(0 <= k * n_out) by (nonlinear_arith)
        requires
            0 <= k,
            0 <= n_out,
    ;
    assert((k + 1) * n_out == k * n_out + n_out) by (nonlinear_arith);
}

/// Dump a CLUT as PostScript: the grid size of each input, then every node
/// in table order, each run of nodes sharing the first input between
/// `pre_maj` and `post_maj` and each run sharing the second between
/// `pre_min` and `post_min`, the outputs as hex bytes (with the white fix
/// when `fix_white`).
pub fn write_clut(
    m: &mut Ps,
    clut: &ForcedClut,
    pre_maj: &str,
    post_maj: &str,
    pre_min: &str,
    post_min: &str,
    fix_white: bool,
    color_space: ColorSpace,
)
    requires
        2 <= clut.n_samples@.len() <= crate::pipeline::MAX_STAGE_CHANNELS,
        fix_white ==> clut.n_samples@.len() >= 3,
        clut.n_outputs <= crate::pipeline::MAX_STAGE_CHANNELS,
        forall|k: int|
            0 <= k <= clut.n_samples@.len() ==> #[trigger] prod_to(clut.n_samples@, k) <= usize::MAX,
        clut.table@.len() >= prod_from(clut.n_samples@, 0) * clut.n_outputs,
        old(m).col <= i32::MAX - 2,
    ensures
        ({
            let cfg = (tb(pre_maj@), tb(post_maj@), tb(pre_min@), tb(post_min@));
            let st0 = (old(m).buf@ + tb("["@) + dims_text(clut.n_samples@, clut.n_samples@.len() as int) + tb(" [\n"@), old(m).col as int, -1int, -1int);
            let fin = dump_nodes(
                cfg,
                fix_white,
                color_space,
                st0,
                clut.n_samples@,
                clut.table@,
                clut.n_outputs as int,
                prod_from(clut.n_samples@, 0),
            );
            final(m).buf@ == fin.0 + tb(post_min@) + tb(post_maj@) + tb("] "@) && final(m).col == fin.1
        }),
{
    let ghost ns = clut.n_samples@;
    let n_in = clut.n_samples.len();
    let n_out = clut.n_outputs;
    m.s("[");
    let mut i: usize = 0;
    while i < n_in
        invariant
            i <= n_in,
            n_in == ns.len(),
            ns == clut.n_samples@,
            n_in <= crate::pipeline::MAX_STAGE_CHANNELS,
            m.col == old(m).col,
            m.buf@ == old(m).buf@ + tb("["@) + dims_text(ns, i as int),
        decreases n_in - i,
    {
        if i < crate::pipeline::MAX_STAGE_CHANNELS {
            m.s(" ");
            m.d(clut.n_samples[i] as i64);
            m.s(" ");
        }
        i += 1;
    }
    m.s(" [\n");
    let mut d = ClutDump {
        pre_maj,
        post_maj,
        pre_min,
        post_min,
        fix_white,
        color_space,
        first_component: -1,
        second_component: -1,
    };
    let ghost cfg = dump_cfg(d);
    let ghost st0 = (m.buf@, m.col as int, -1int, -1int);
    let mut n_total: usize = 1;
    let mut k: usize = 0;
    while k < n_in
        invariant
            k <= n_in,
            n_in == ns.len(),
            ns == clut.n_samples@,
            n_total == prod_to(ns, k as int),
            forall|j: int| 0 <= j <= ns.len() ==> #[trigger] prod_to(ns, j) <= usize::MAX,
        decreases n_in - k,
    {
        assert(prod_to(ns, k + 1) == prod_to(ns, k as int) * ns[k as int]);
        assert(prod_to(ns, k + 1) <= usize::MAX);
        n_total = n_total * (clut.n_samples[k] as usize);
        k += 1;
    }
    proof {
        crate::gamut::lemma_prod_split(ns, ns.len() as int);
    }
    assert(n_total == prod_from(ns, 0));
    let tlen = clut.table.len();
    let mut in16: Vec<u16> = vec![0u16; n_in];
    let mut out16: Vec<u16> = vec![0u16; n_out];
    let mut idx: usize = 0;
    let mut node: usize = 0;
    while node < n_total
        invariant
            node <= n_total,
            n_total == prod_from(ns, 0),
            ns == clut.n_samples@,
            n_in == ns.len(),
            2 <= n_in,
            fix_white ==> n_in >= 3,
            n_out == clut.n_outputs,
            in16@.len() == n_in,
            out16@.len() == n_out,
            idx == node * n_out,
            tlen == clut.table@.len(),
            clut.table@.len() >= n_total * n_out,
            d.pre_maj == pre_maj,
            d.post_maj == post_maj,
            d.pre_min == pre_min,
            d.post_min == post_min,
            d.fix_white == fix_white,
            d.color_space == color_space,
            cfg == dump_cfg(d),
            m.col <= i32::MAX - 2,
            (m.buf@, m.col as int, d.first_component as int, d.second_component as int) == dump_nodes(
                cfg,
                fix_white,
                color_space,
                st0,
                ns,
                clut.table@,
                n_out as int,
                node as int,
            ),
        decreases n_total - node,
    {
        proof {
            lemma_node_range(node as int, n_out as int, n_total as int);
        }
        crate::gamut::fill_node(&mut in16, clut.n_samples.as_slice(), node, n_total);
        let mut c: usize = 0;
        while c < n_out
            invariant
                c <= n_out,
                out16@.len() == n_out,
                tlen == clut.table@.len(),
                idx + n_out <= tlen,
                forall|j: int| 0 <= j < c ==> out16@[j] == clut.table@[idx + j],
            decreases n_out - c,
        {
            out16.set(c, clut.table[idx + c]);
            c += 1;
        }
        assert(out16@ =~= node_out(clut.table@, n_out as int, node as int));
        idx += n_out;
        output_value_sampler(m, &mut d, in16.as_slice(), out16.as_mut_slice());
        node += 1;
    }
    m.s(post_min);
    m.s(post_maj);
    m.s("] ");
}

/// Whether coordinate `at[k]` lands exactly on a node of axis `k`.
pub open spec fn on_node(at: Seq<u16>, ns: Seq<u32>, k: int) -> bool {
    (at[k] as int * (ns[k] as int - 1)) % 65535 == 0
}

/// The node index along axis `k` that `at[k]` lands on.
pub open spec fn node_coord(at: Seq<u16>, ns: Seq<u32>, k: int) -> int {
    at[k] as int * (ns[k] as int - 1) / 65535
}

/// The linear node number of the first `k` coordinates (mixed radix, last
/// input fastest).
pub open spec fn node_number(at: Seq<u16>, ns: Seq<u32>, k: int) -> int
    decreases k,
{
    if k <= 0 {
        0
    } else {
        node_number(at, ns, k - 1) * ns[k - 1] as int + node_coord(at, ns, k - 1)
    }
}

/// The table after patching: when there are 1, 3 or 4 inputs and `at`
/// lands on a node of every axis, that node's outputs (as many as `value`
/// and the output count allow) are replaced by `value`.
pub open spec fn patched(table: Seq<u16>, ns: Seq<u32>, n_out: int, at: Seq<u16>, value: Seq<u16>) -> Seq<u16> {
    let n_in = ns.len() as int;
    if (n_in == 1 || n_in == 3 || n_in == 4) && forall|k: int| 0 <= k < n_in ==> #[trigger] on_node(at, ns, k) {
        let base = n_out * node_number(at, ns, n_in);
        let w = if value.len() < n_out {
            value.len() as int
        } else {
            n_out
        };
        Seq::new(table.len(), |j: int| if base <= j < base + w {
            value[j - base]
        } else {
            table[j]
        })
    } else {
        table
    }
}

proof fn lemma_prod_to_pos(s: Seq<u32>, k: int)
    requires
        0 <= k <= s.len(),
        forall|j: int| 0 <= j < s.len() ==> s[j] >= 1,
    ensures
        prod_to(s, k) >= 1,
    decreases k,
{
    if k > 0 {
        lemma_prod_to_pos(s, k - 1);
        let p = prod_to(s, k - 1);
        assert(p * s[k - 1] >= 1) by (nonlinear_arith)
            requires
                p >= 1,
                s[k - 1] >= 1,
        ;
    }
}

proof fn lemma_prod_to_mono(s: Seq<u32>, k: int, n: int)
    requires
        0 <= k <= n <= s.len(),
        forall|j: int| 0 <= j < s.len() ==> s[j] >= 1,
    ensures
        1 <= prod_to(s, k) <= prod_to(s, n),
    decreases n - k,
{
    lemma_prod_to_pos(s, k);
    if k < n {
        lemma_prod_to_mono(s, k, n - 1);
        let p = prod_to(s, n - 1);
        assert(prod_to(s, n) == p * s[n - 1]);
        assert(p <= p * s[n - 1]) by (nonlinear_arith)
            requires
                p >= 1,
                s[n - 1] >= 1,
        ;
    }
}

proof fn lemma_node_number_bound(at: Seq<u16>, ns: Seq<u32>, k: int)
    requires
        0 <= k <= ns.len(),
        at.len() >= ns.len(),
        forall|j: int| 0 <= j < ns.len() ==> ns[j] >= 1,
    ensures
        0 <= node_number(at, ns, k) <= prod_to(ns, k) - 1,
    decreases k,
{
    if k > 0 {
        lemma_node_number_bound(at, ns, k - 1);
        let c = node_coord(at, ns, k - 1);
        let d = ns[k - 1] as int - 1;
        let a = at[k - 1] as int;
        assert(0 <= c <= d) by (nonlinear_arith)
            requires
                c == a * d / 65535,
                0 <= a <= 65535,
                0 <= d,
        {
            assert(a * d <= 65535 * d) by (nonlinear_arith)
                requires
                    0 <= a <= 65535,
                    0 <= d,
            ;
        }
        let h = node_number(at, ns, k - 1);
        let p = prod_to(ns, k - 1);
        assert(prod_to(ns, k) == p * ns[k - 1] as int);
        assert(0 <= h * (d + 1) + c <= (p - 1) * (d + 1) + d) by (nonlinear_arith)
            requires
                0 <= h <= p - 1,
                0 <= c <= d,
        ;
        assert((p - 1) * (d + 1) + d == p * (d + 1) - 1) by (nonlinear_arith);
    }
}

/// Overwrite the outputs of the grid node that `at` lands on exactly (see
/// [`patched`]).
pub fn patch_lut(clut: &mut ForcedClut, at: &[u16], value: &[u16])
    requires
        at@.len() >= old(clut).n_samples@.len(),
        forall|j: int| 0 <= j < old(clut).n_samples@.len() ==> old(clut).n_samples@[j] >= 1,
        prod_from(old(clut).n_samples@, 0) <= usize::MAX,
        prod_from(old(clut).n_samples@, 0) * old(clut).n_outputs <= old(clut).table@.len(),
    ensures
        final(clut).n_samples@ == old(clut).n_samples@,
        final(clut).n_outputs == old(clut).n_outputs,
        final(clut).table@ == patched(
            old(clut).table@,
            old(clut).n_samples@,
            old(clut).n_outputs as int,
            at@,
            value@,
        ),
{
    let ghost ns = clut.n_samples@;
    let n_in = clut.n_samples.len();
    let n_out = clut.n_outputs;
    let tlen = clut.table.len();
    if n_in != 1 && n_in != 3 && n_in != 4 {
        return;
    }
    proof {
        crate::gamut::lemma_prod_split(ns, ns.len() as int);
        crate::lut::lemma_prod_from_pos(ns, ns.len() as int);
    }
    let mut number: usize = 0;
    let mut k: usize = 0;
    while k < n_in
        invariant
            k <= n_in,
            n_in == ns.len(),
            n_in <= 4,
            ns == clut.n_samples@,
            at@.len() >= n_in,
            forall|j: int| 0 <= j < ns.len() ==> ns[j] >= 1,
            prod_to(ns, n_in as int) == prod_from(ns, 0),
            prod_from(ns, 0) <= usize::MAX,
            forall|j: int| 0 <= j < k ==> #[trigger] on_node(at@, ns, j),
            number == node_number(at@, ns, k as int),
        decreases n_in - k,
    {
        let dom = (clut.n_samples[k] - 1) as u64;
        let a = at[k] as u64;
        assert(a * dom <= 65535 * 0xffff_ffff) by (nonlinear_arith)
            requires
                a <= 65535,
                dom <= 0xffff_ffff,
        ;
        let prod = a * dom;
        if prod % 65535 != 0 {
            assert(!on_node(at@, ns, k as int));
            return;
        }
        proof {
            lemma_node_number_bound(at@, ns, k + 1);
            lemma_prod_to_mono(ns, k + 1, n_in as int);
        }
        let coord = (prod / 65535) as usize;
        number = number * (clut.n_samples[k] as usize) + coord;
        k += 1;
    }
    proof {
        lemma_node_number_bound(at@, ns, n_in as int);
        let p = prod_from(ns, 0);
        assert(n_out * number + n_out <= n_out * p) by (nonlinear_arith)
            requires
                number <= p - 1,
                n_out >= 0,
        ;
        assert(n_out * p == p * n_out) by (nonlinear_arith);
        assert(n_out * p <= tlen);
    }
    let base = n_out * number;
    let w = if value.len() < n_out {
        value.len()
    } else {
        n_out
    };
    let ghost old_table = clut.table@;
    let mut i: usize = 0;
    while i < w
        invariant
            i <= w,
            w <= n_out,
            w <= value@.len(),
            base + n_out <= tlen,
            tlen == clut.table@.len(),
            clut.table@.len() == old_table.len(),
            clut.n_samples@ == ns,
            clut.n_outputs == n_out,
            forall|j: int| 0 <= j < tlen ==> #[trigger] clut.table@[j] == if base <= j < base + i {
                value@[j - base]
            } else {
                old_table[j]
            },
        decreases w - i,
    {
        let idx = base + i;
        if idx < tlen {
            clut.table.set(idx, value[i]);
        }
        i += 1;
    }
    assert(clut.table@ =~= patched(old_table, ns, n_out as int, at@, value@));
}

/// The black point (given as its three components rendered with `%f`) and
/// the D50 white point.
pub open spec fn white_black_text(bx: Seq<char>, by: Seq<char>, bz: Seq<char>) -> Seq<u8> {
    tb("/BlackPoint ["@) + tb(bx) + tb(" "@) + tb(by) + tb(" "@) + tb(bz) + tb(
        "]\n/WhitePoint [0.964200 1.000000 0.824900]\n"@,
    )
}

pub fn emit_white_black_d50(m: &mut Ps, black: (&str, &str, &str))
    ensures
        final(m).buf@ == old(m).buf@ + white_black_text(black.0@, black.1@, black.2@),
        final(m).col == old(m).col,
{
    m.s("/BlackPoint [");
    m.s(black.0);
    m.s(" ");
    m.s(black.1);
    m.s(" ");
    m.s(black.2);
    m.s("]\n/WhitePoint [0.964200 1.000000 0.824900]\n");
}

/// The brackets of a CIE-based DEF (3 inputs) or DEFG (4 inputs) table.
pub open spec fn def_brackets(n_in: usize) -> (&'static str, &'static str, &'static str, &'static str) {
    if n_in == 3 {
        ("<", ">\n", "", "")
    } else {
        ("[", "]\n", "<", ">\n")
    }
}

/// A CLUT-based color space array for a 3- or 4-channel device: `false`
/// and nothing written for any other channel count.
pub fn emit_cie_based_def(m: &mut Ps, clut: &ForcedClut, n_in: usize, intent: u32, black: (&str, &str, &str)) -> (r: bool)
    requires
        2 <= clut.n_samples@.len() <= crate::pipeline::MAX_STAGE_CHANNELS,
        clut.n_outputs <= crate::pipeline::MAX_STAGE_CHANNELS,
        forall|k: int|
            0 <= k <= clut.n_samples@.len() ==> #[trigger] prod_to(clut.n_samples@, k) <= usize::MAX,
        clut.table@.len() >= prod_from(clut.n_samples@, 0) * clut.n_outputs,
        old(m).col <= i32::MAX - 2,
    ensures
        r == (n_in == 3 || n_in == 4),
        !r ==> final(m).buf@ == old(m).buf@ && final(m).col == old(m).col,
        r ==> ({
            let (pre_maj, post_maj, pre_min, post_min) = def_brackets(n_in);
            let head = old(m).buf@ + tb(
                if n_in == 3 {
                    "[ /CIEBasedDEF\n"@
                } else {
                    "[ /CIEBasedDEFG\n"@
                },
            ) + tb("<<\n/Table "@);
            let cfg = (tb(pre_maj@), tb(post_maj@), tb(pre_min@), tb(post_min@));
            let st0 = (head + tb("["@) + dims_text(clut.n_samples@, clut.n_samples@.len() as int) + tb(
                " [\n"@,
            ), old(m).col as int, -1int, -1int);
            let fin = dump_nodes(
                cfg,
                false,
                ColorSpace::XYZ,
                st0,
                clut.n_samples@,
                clut.table@,
                clut.n_outputs as int,
                prod_from(clut.n_samples@, 0),
            );
            &&& final(m).buf@ == fin.0 + tb(post_min@) + tb(post_maj@) + tb("] "@) + tb("]\n"@)
                + lab2xyz_text() + white_black_text(black.0@, black.1@, black.2@) + tb(
                "/RenderingIntent ("@,
            ) + tb(intent_name(intent)@) + tb(")\n"@) + tb("   >>\n]\n"@)
            &&& final(m).col == fin.1
        }),
{
    let (pre_maj, post_maj, pre_min, post_min) = if n_in == 3 {
        m.s("[ /CIEBasedDEF\n");
        ("<", ">\n", "", "")
    } else if n_in == 4 {
        m.s("[ /CIEBasedDEFG\n");
        ("[", "]\n", "<", ">\n")
    } else {
        return false;
    };
    m.s("<<\n/Table ");
    write_clut(m, clut, pre_maj, post_maj, pre_min, post_min, false, ColorSpace::XYZ);
    m.s("]\n");
    emit_lab2xyz(m);
    emit_white_black_d50(m, black);
    emit_intent(m, intent);
    m.s("   >>\n]\n");
    true
}

/// The `/RenderingIntent` entry names the ICC intent whose code it is
/// given, in the header's numbering (perceptual 0, relative colorimetric 1,
/// saturation 2, absolute colorimetric 3); any other code is undefined.
pub proof fn lemma_intent_names()
    ensures
        intent_name(intent_code(RenderingIntent::Perceptual)) == "Perceptual",
        intent_name(intent_code(RenderingIntent::RelativeColorimetric)) == "RelativeColorimetric",
        intent_name(intent_code(RenderingIntent::Saturation)) == "Saturation",
        intent_name(intent_code(RenderingIntent::AbsoluteColorimetric)) == "AbsoluteColorimetric",
        forall|v: u32| v > 3 ==> #[trigger] intent_name(v) == "Undefined",
{
}

} // verus!
