//! The 128-byte ICC profile header: the device class, color space and
//! rendering intent codes, the version clamp, and the header parse.

use vstd::prelude::*;
use crate::error::Error;
use crate::io::{be_n, signed, truncated, MemReader};
use crate::sig::Signature;

verus! {

/// The profile file signature, `acsp`.
pub const MAGIC: u32 = 0x6163_7370;

/// The named device classes; any other
/// code is carried as it is.
#[derive(Clone, Copy, Debug, PartialEq, Eq, Structural)]
pub enum ProfileClass {
    /// 'scnr'
    Input,
    /// 'mntr'
    Display,
    /// 'prtr'
    Output,
    /// 'link'
    Link,
    /// 'abst'
    Abstract,
    /// 'spac'
    ColorSpace,
    /// 'nmcl'
    NamedColor,
    Other(Signature),
}

/// The code of a device class.
pub open spec fn class_code(c: ProfileClass) -> u32 {
    match c {
        ProfileClass::Input => 0x7363_6E72,
        ProfileClass::Display => 0x6D6E_7472,
        ProfileClass::Output => 0x7072_7472,
        ProfileClass::Link => 0x6C69_6E6B,
        ProfileClass::Abstract => 0x6162_7374,
        ProfileClass::ColorSpace => 0x7370_6163,
        ProfileClass::NamedColor => 0x6E6D_636C,
        ProfileClass::Other(s) => s.0,
    }
}

/// The device class a code names.
pub open spec fn class_of(v: u32) -> ProfileClass {
    match v {
        0x7363_6E72 => ProfileClass::Input,
        0x6D6E_7472 => ProfileClass::Display,
        0x7072_7472 => ProfileClass::Output,
        0x6C69_6E6B => ProfileClass::Link,
        0x6162_7374 => ProfileClass::Abstract,
        0x7370_6163 => ProfileClass::ColorSpace,
        0x6E6D_636C => ProfileClass::NamedColor,
        _ => ProfileClass::Other(Signature(v)),
    }
}

impl ProfileClass {
    pub fn from_raw(v: u32) -> (c: ProfileClass)
        ensures
            c == class_of(v),
    {
        match v {
            0x7363_6E72 => ProfileClass::Input,
            0x6D6E_7472 => ProfileClass::Display,
            0x7072_7472 => ProfileClass::Output,
            0x6C69_6E6B => ProfileClass::Link,
            0x6162_7374 => ProfileClass::Abstract,
            0x7370_6163 => ProfileClass::ColorSpace,
            0x6E6D_636C => ProfileClass::NamedColor,
            other => ProfileClass::Other(Signature::from_raw(other)),
        }
    }

    pub fn to_raw(self) -> (v: u32)
        ensures
            v == class_code(self),
    {
        match self {
            ProfileClass::Input => 0x7363_6E72,
            ProfileClass::Display => 0x6D6E_7472,
            ProfileClass::Output => 0x7072_7472,
            ProfileClass::Link => 0x6C69_6E6B,
            ProfileClass::Abstract => 0x6162_7374,
            ProfileClass::ColorSpace => 0x7370_6163,
            ProfileClass::NamedColor => 0x6E6D_636C,
            ProfileClass::Other(s) => s.to_raw(),
        }
    }
}

/// The named color spaces; any other code
/// is carried as it is.
#[derive(Clone, Copy, Debug, PartialEq, Eq, Structural)]
pub enum ColorSpace {
    /// 'XYZ '
    XYZ,
    /// 'Lab '
    Lab,
    /// 'Luv '
    Luv,
    /// 'YCbr'
    YCbCr,
    /// 'Yxy '
    Yxy,
    /// 'RGB '
    Rgb,
    /// 'GRAY'
    Gray,
    /// 'HSV '
    Hsv,
    /// 'HLS '
    Hls,
    /// 'CMYK'
    Cmyk,
    /// 'CMY '
    Cmy,
    /// 'MCH1'
    Mch1,
    /// 'MCH2'
    Mch2,
    /// 'MCH3'
    Mch3,
    /// 'MCH4'
    Mch4,
    /// 'MCH5'
    Mch5,
    /// 'MCH6'
    Mch6,
    /// 'MCH7'
    Mch7,
    /// 'MCH8'
    Mch8,
    /// 'MCH9'
    Mch9,
    /// 'MCHA'
    MchA,
    /// 'MCHB'
    MchB,
    /// 'MCHC'
    MchC,
    /// 'MCHD'
    MchD,
    /// 'MCHE'
    MchE,
    /// 'MCHF'
    MchF,
    /// 'nmcl'
    Named,
    /// '1CLR'
    Color1,
    /// '2CLR'
    Color2,
    /// '3CLR'
    Color3,
    /// '4CLR'
    Color4,
    /// '5CLR'
    Color5,
    /// '6CLR'
    Color6,
    /// '7CLR'
    Color7,
    /// '8CLR'
    Color8,
    /// '9CLR'
    Color9,
    /// 'ACLR'
    Color10,
    /// 'BCLR'
    Color11,
    /// 'CCLR'
    Color12,
    /// 'DCLR'
    Color13,
    /// 'ECLR'
    Color14,
    /// 'FCLR'
    Color15,
    /// 'LuvK'
    LuvK,
    Other(Signature),
}

/// The code of a color space.
pub open spec fn cs_code(c: ColorSpace) -> u32 {
    match c {
        ColorSpace::XYZ => 0x5859_5A20,
        ColorSpace::Lab => 0x4C61_6220,
        ColorSpace::Luv => 0x4C75_7620,
        ColorSpace::YCbCr => 0x5943_6272,
        ColorSpace::Yxy => 0x5978_7920,
        ColorSpace::Rgb => 0x5247_4220,
        ColorSpace::Gray => 0x4752_4159,
        ColorSpace::Hsv => 0x4853_5620,
        ColorSpace::Hls => 0x484C_5320,
        ColorSpace::Cmyk => 0x434D_594B,
        ColorSpace::Cmy => 0x434D_5920,
        ColorSpace::Mch1 => 0x4D43_4831,
        ColorSpace::Mch2 => 0x4D43_4832,
        ColorSpace::Mch3 => 0x4D43_4833,
        ColorSpace::Mch4 => 0x4D43_4834,
        ColorSpace::Mch5 => 0x4D43_4835,
        ColorSpace::Mch6 => 0x4D43_4836,
        ColorSpace::Mch7 => 0x4D43_4837,
        ColorSpace::Mch8 => 0x4D43_4838,
        ColorSpace::Mch9 => 0x4D43_4839,
        ColorSpace::MchA => 0x4D43_4841,
        ColorSpace::MchB => 0x4D43_4842,
        ColorSpace::MchC => 0x4D43_4843,
        ColorSpace::MchD => 0x4D43_4844,
        ColorSpace::MchE => 0x4D43_4845,
        ColorSpace::MchF => 0x4D43_4846,
        ColorSpace::Named => 0x6E6D_636C,
        ColorSpace::Color1 => 0x3143_4C52,
        ColorSpace::Color2 => 0x3243_4C52,
        ColorSpace::Color3 => 0x3343_4C52,
        ColorSpace::Color4 => 0x3443_4C52,
        ColorSpace::Color5 => 0x3543_4C52,
        ColorSpace::Color6 => 0x3643_4C52,
        ColorSpace::Color7 => 0x3743_4C52,
        ColorSpace::Color8 => 0x3843_4C52,
        ColorSpace::Color9 => 0x3943_4C52,
        ColorSpace::Color10 => 0x4143_4C52,
        ColorSpace::Color11 => 0x4243_4C52,
        ColorSpace::Color12 => 0x4343_4C52,
        ColorSpace::Color13 => 0x4443_4C52,
        ColorSpace::Color14 => 0x4543_4C52,
        ColorSpace::Color15 => 0x4643_4C52,
        ColorSpace::LuvK => 0x4C75_764B,
        ColorSpace::Other(s) => s.0,
    }
}

/// The color space a code names.
pub open spec fn cs_of(v: u32) -> ColorSpace {
    match v {
        0x5859_5A20 => ColorSpace::XYZ,
        0x4C61_6220 => ColorSpace::Lab,
        0x4C75_7620 => ColorSpace::Luv,
        0x5943_6272 => ColorSpace::YCbCr,
        0x5978_7920 => ColorSpace::Yxy,
        0x5247_4220 => ColorSpace::Rgb,
        0x4752_4159 => ColorSpace::Gray,
        0x4853_5620 => ColorSpace::Hsv,
        0x484C_5320 => ColorSpace::Hls,
        0x434D_594B => ColorSpace::Cmyk,
        0x434D_5920 => ColorSpace::Cmy,
        0x4D43_4831 => ColorSpace::Mch1,
        0x4D43_4832 => ColorSpace::Mch2,
        0x4D43_4833 => ColorSpace::Mch3,
        0x4D43_4834 => ColorSpace::Mch4,
        0x4D43_4835 => ColorSpace::Mch5,
        0x4D43_4836 => ColorSpace::Mch6,
        0x4D43_4837 => ColorSpace::Mch7,
        0x4D43_4838 => ColorSpace::Mch8,
        0x4D43_4839 => ColorSpace::Mch9,
        0x4D43_4841 => ColorSpace::MchA,
        0x4D43_4842 => ColorSpace::MchB,
        0x4D43_4843 => ColorSpace::MchC,
        0x4D43_4844 => ColorSpace::MchD,
        0x4D43_4845 => ColorSpace::MchE,
        0x4D43_4846 => ColorSpace::MchF,
        0x6E6D_636C => ColorSpace::Named,
        0x3143_4C52 => ColorSpace::Color1,
        0x3243_4C52 => ColorSpace::Color2,
        0x3343_4C52 => ColorSpace::Color3,
        0x3443_4C52 => ColorSpace::Color4,
        0x3543_4C52 => ColorSpace::Color5,
        0x3643_4C52 => ColorSpace::Color6,
        0x3743_4C52 => ColorSpace::Color7,
        0x3843_4C52 => ColorSpace::Color8,
        0x3943_4C52 => ColorSpace::Color9,
        0x4143_4C52 => ColorSpace::Color10,
        0x4243_4C52 => ColorSpace::Color11,
        0x4343_4C52 => ColorSpace::Color12,
        0x4443_4C52 => ColorSpace::Color13,
        0x4543_4C52 => ColorSpace::Color14,
        0x4643_4C52 => ColorSpace::Color15,
        0x4C75_764B => ColorSpace::LuvK,
        _ => ColorSpace::Other(Signature(v)),
    }
}

impl ColorSpace {
    pub fn from_raw(v: u32) -> (c: ColorSpace)
        ensures
            c == cs_of(v),
    {
        match v {
            0x5859_5A20 => ColorSpace::XYZ,
            0x4C61_6220 => ColorSpace::Lab,
            0x4C75_7620 => ColorSpace::Luv,
            0x5943_6272 => ColorSpace::YCbCr,
            0x5978_7920 => ColorSpace::Yxy,
            0x5247_4220 => ColorSpace::Rgb,
            0x4752_4159 => ColorSpace::Gray,
            0x4853_5620 => ColorSpace::Hsv,
            0x484C_5320 => ColorSpace::Hls,
            0x434D_594B => ColorSpace::Cmyk,
            0x434D_5920 => ColorSpace::Cmy,
            0x4D43_4831 => ColorSpace::Mch1,
            0x4D43_4832 => ColorSpace::Mch2,
            0x4D43_4833 => ColorSpace::Mch3,
            0x4D43_4834 => ColorSpace::Mch4,
            0x4D43_4835 => ColorSpace::Mch5,
            0x4D43_4836 => ColorSpace::Mch6,
            0x4D43_4837 => ColorSpace::Mch7,
            0x4D43_4838 => ColorSpace::Mch8,
            0x4D43_4839 => ColorSpace::Mch9,
            0x4D43_4841 => ColorSpace::MchA,
            0x4D43_4842 => ColorSpace::MchB,
            0x4D43_4843 => ColorSpace::MchC,
            0x4D43_4844 => ColorSpace::MchD,
            0x4D43_4845 => ColorSpace::MchE,
            0x4D43_4846 => ColorSpace::MchF,
            0x6E6D_636C => ColorSpace::Named,
            0x3143_4C52 => ColorSpace::Color1,
            0x3243_4C52 => ColorSpace::Color2,
            0x3343_4C52 => ColorSpace::Color3,
            0x3443_4C52 => ColorSpace::Color4,
            0x3543_4C52 => ColorSpace::Color5,
            0x3643_4C52 => ColorSpace::Color6,
            0x3743_4C52 => ColorSpace::Color7,
            0x3843_4C52 => ColorSpace::Color8,
            0x3943_4C52 => ColorSpace::Color9,
            0x4143_4C52 => ColorSpace::Color10,
            0x4243_4C52 => ColorSpace::Color11,
            0x4343_4C52 => ColorSpace::Color12,
            0x4443_4C52 => ColorSpace::Color13,
            0x4543_4C52 => ColorSpace::Color14,
            0x4643_4C52 => ColorSpace::Color15,
            0x4C75_764B => ColorSpace::LuvK,
            other => ColorSpace::Other(Signature::from_raw(other)),
        }
    }

    pub fn to_raw(self) -> (v: u32)
        ensures
            v == cs_code(self),
    {
        match self {
            ColorSpace::XYZ => 0x5859_5A20,
            ColorSpace::Lab => 0x4C61_6220,
            ColorSpace::Luv => 0x4C75_7620,
            ColorSpace::YCbCr => 0x5943_6272,
            ColorSpace::Yxy => 0x5978_7920,
            ColorSpace::Rgb => 0x5247_4220,
            ColorSpace::Gray => 0x4752_4159,
            ColorSpace::Hsv => 0x4853_5620,
            ColorSpace::Hls => 0x484C_5320,
            ColorSpace::Cmyk => 0x434D_594B,
            ColorSpace::Cmy => 0x434D_5920,
            ColorSpace::Mch1 => 0x4D43_4831,
            ColorSpace::Mch2 => 0x4D43_4832,
            ColorSpace::Mch3 => 0x4D43_4833,
            ColorSpace::Mch4 => 0x4D43_4834,
            ColorSpace::Mch5 => 0x4D43_4835,
            ColorSpace::Mch6 => 0x4D43_4836,
            ColorSpace::Mch7 => 0x4D43_4837,
            ColorSpace::Mch8 => 0x4D43_4838,
            ColorSpace::Mch9 => 0x4D43_4839,
            ColorSpace::MchA => 0x4D43_4841,
            ColorSpace::MchB => 0x4D43_4842,
            ColorSpace::MchC => 0x4D43_4843,
            ColorSpace::MchD => 0x4D43_4844,
            ColorSpace::MchE => 0x4D43_4845,
            ColorSpace::MchF => 0x4D43_4846,
            ColorSpace::Named => 0x6E6D_636C,
            ColorSpace::Color1 => 0x3143_4C52,
            ColorSpace::Color2 => 0x3243_4C52,
            ColorSpace::Color3 => 0x3343_4C52,
            ColorSpace::Color4 => 0x3443_4C52,
            ColorSpace::Color5 => 0x3543_4C52,
            ColorSpace::Color6 => 0x3643_4C52,
            ColorSpace::Color7 => 0x3743_4C52,
            ColorSpace::Color8 => 0x3843_4C52,
            ColorSpace::Color9 => 0x3943_4C52,
            ColorSpace::Color10 => 0x4143_4C52,
            ColorSpace::Color11 => 0x4243_4C52,
            ColorSpace::Color12 => 0x4343_4C52,
            ColorSpace::Color13 => 0x4443_4C52,
            ColorSpace::Color14 => 0x4543_4C52,
            ColorSpace::Color15 => 0x4643_4C52,
            ColorSpace::LuvK => 0x4C75_764B,
            ColorSpace::Other(s) => s.to_raw(),
        }
    }
}

/// The four ICC intents; any other value is carried
/// as it is.
#[derive(Clone, Copy, Debug, PartialEq, Eq, Structural)]
pub enum RenderingIntent {
    Perceptual,
    RelativeColorimetric,
    Saturation,
    AbsoluteColorimetric,
    Other(u32),
}

pub open spec fn intent_code(i: RenderingIntent) -> u32 {
    match i {
        RenderingIntent::Perceptual => 0,
        RenderingIntent::RelativeColorimetric => 1,
        RenderingIntent::Saturation => 2,
        RenderingIntent::AbsoluteColorimetric => 3,
        RenderingIntent::Other(v) => v,
    }
}

pub open spec fn intent_of(v: u32) -> RenderingIntent {
    match v {
        0 => RenderingIntent::Perceptual,
        1 => RenderingIntent::RelativeColorimetric,
        2 => RenderingIntent::Saturation,
        3 => RenderingIntent::AbsoluteColorimetric,
        _ => RenderingIntent::Other(v),
    }
}

impl RenderingIntent {
    pub fn from_raw(v: u32) -> (i: RenderingIntent)
        ensures
            i == intent_of(v),
    {
        match v {
            0 => RenderingIntent::Perceptual,
            1 => RenderingIntent::RelativeColorimetric,
            2 => RenderingIntent::Saturation,
            3 => RenderingIntent::AbsoluteColorimetric,
            other => RenderingIntent::Other(other),
        }
    }

    pub fn to_raw(self) -> (v: u32)
        ensures
            v == intent_code(self),
    {
        match self {
            RenderingIntent::Perceptual => 0,
            RenderingIntent::RelativeColorimetric => 1,
            RenderingIntent::Saturation => 2,
            RenderingIntent::AbsoluteColorimetric => 3,
            RenderingIntent::Other(v) => v,
        }
    }
}

// ------------------------------------------------------------ laws

/// Decoding a class code and encoding it again gives the code back.
pub proof fn lemma_class_code_of(v: u32)
    ensures
        class_code(class_of(v)) == v,
{
}

/// Encoding a class and decoding the code gives the class back, unless it is
/// an unnamed class carrying a code that has a name.
pub proof fn lemma_class_of_code(c: ProfileClass)
    requires
        c matches ProfileClass::Other(s) ==> class_of(s.0) is Other,
    ensures
        class_of(class_code(c)) == c,
{
}

/// Decoding a color space code and encoding it again gives the code back.
pub proof fn lemma_cs_code_of(v: u32)
    ensures
        cs_code(cs_of(v)) == v,
{
}

/// Encoding a color space and decoding the code gives it back, unless it is
/// an unnamed space carrying a code that has a name.
pub proof fn lemma_cs_of_code(c: ColorSpace)
    requires
        c matches ColorSpace::Other(s) ==> cs_of(s.0) is Other,
    ensures
        cs_of(cs_code(c)) == c,
{
}

/// Decoding an intent and encoding it again gives the value back.
pub proof fn lemma_intent_code_of(v: u32)
    ensures
        intent_code(intent_of(v)) == v,
{
}

/// Encoding an intent and decoding it gives it back, unless it is an
/// unnamed intent carrying one of the four named values.
pub proof fn lemma_intent_of_code(i: RenderingIntent)
    requires
        i matches RenderingIntent::Other(v) ==> v > 3,
    ensures
        intent_of(intent_code(i)) == i,
{
}

// ------------------------------------------------------------ version

/// The version with its major digit and the two BCD digits of its minor
/// byte each clamped to 9, and the two reserved bytes cleared.
pub open spec fn validated_version(raw: u32) -> u32 {
    let major = raw / 0x100_0000;
    let hi = (raw / 0x10_0000) % 16;
    let lo = (raw / 0x1_0000) % 16;
    ((if major > 9 { 9 } else { major }) * 0x100_0000 + (if hi > 9 { 9 } else { hi }) * 0x10_0000
        + (if lo > 9 { 9 } else { lo }) * 0x1_0000) as u32
}

/// `_validatedVersion`.
pub fn validate_version(raw: u32) -> (v: u32)
    ensures
        v == validated_version(raw),
{
    let mut major = raw / 0x100_0000;
    let mut hi = (raw / 0x10_0000) % 16;
    let mut lo = (raw / 0x1_0000) % 16;
    if major > 9 {
        major = 9;
    }
    if hi > 9 {
        hi = 9;
    }
    if lo > 9 {
        lo = 9;
    }
    major * 0x100_0000 + hi * 0x10_0000 + lo * 0x1_0000
}

proof fn lemma_version_digits(m: u32, h: u32, l: u32)
    requires
        m <= 9,
        h <= 9,
        l <= 9,
    ensures
        ((m * 0x100_0000 + h * 0x10_0000 + l * 0x1_0000) as u32) / 0x100_0000 == m,
        (((m * 0x100_0000 + h * 0x10_0000 + l * 0x1_0000) as u32) / 0x10_0000) % 16 == h,
        (((m * 0x100_0000 + h * 0x10_0000 + l * 0x1_0000) as u32) / 0x1_0000) % 16 == l,
{
    assert(((m * 0x100_0000 + h * 0x10_0000 + l * 0x1_0000) as u32) / 0x100_0000 == m) by (bit_vector)
        requires
            m <= 9,
            h <= 9,
            l <= 9,
    ;
    assert((((m * 0x100_0000 + h * 0x10_0000 + l * 0x1_0000) as u32) / 0x10_0000) % 16 == h) by (bit_vector)
        requires
            m <= 9,
            h <= 9,
            l <= 9,
    ;
    assert((((m * 0x100_0000 + h * 0x10_0000 + l * 0x1_0000) as u32) / 0x1_0000) % 16 == l) by (bit_vector)
        requires
            m <= 9,
            h <= 9,
            l <= 9,
    ;
}

/// A validated version is left alone by a second validation.
pub proof fn lemma_validate_version_idempotent(raw: u32)
    ensures
        validated_version(validated_version(raw)) == validated_version(raw),
{
    let major = raw / 0x100_0000;
    let hi = (raw / 0x10_0000) % 16;
    let lo = (raw / 0x1_0000) % 16;
    let m: u32 = if major > 9 { 9 } else { major };
    let h: u32 = if hi > 9 { 9 } else { hi };
    let l: u32 = if lo > 9 { 9 } else { lo };
    lemma_version_digits(m, h, l);
}

// ------------------------------------------------------------ header

/// A date and time, as stored.
#[derive(Clone, Copy, Debug, PartialEq, Eq, Structural)]
pub struct DateTime {
    pub year: u16,
    pub month: u16,
    pub day: u16,
    pub hours: u16,
    pub minutes: u16,
    pub seconds: u16,
}

/// The fields of the ICC header that are kept. The illuminant is held as
/// its three raw s15.16 values.
#[derive(Clone, Copy, Debug)]
pub struct Header {
    pub size: u32,
    pub cmm: Signature,
    /// After `validate_version`.
    pub version: u32,
    pub device_class: ProfileClass,
    pub color_space: ColorSpace,
    pub pcs: ColorSpace,
    pub date: DateTime,
    pub platform: Signature,
    pub flags: u32,
    pub manufacturer: Signature,
    pub model: u32,
    pub attributes: u64,
    pub rendering_intent: RenderingIntent,
    pub illuminant: [i32; 3],
    pub creator: Signature,
    pub profile_id: [u8; 16],
}

/// The header field that holds byte `x` (0..128), as offset and size.
pub open spec fn field_at(x: int) -> (int, int) {
    if x < 4 {
        (0, 4)
    } else if x < 8 {
        (4, 4)
    } else if x < 12 {
        (8, 4)
    } else if x < 16 {
        (12, 4)
    } else if x < 20 {
        (16, 4)
    } else if x < 24 {
        (20, 4)
    } else if x < 26 {
        (24, 2)
    } else if x < 28 {
        (26, 2)
    } else if x < 30 {
        (28, 2)
    } else if x < 32 {
        (30, 2)
    } else if x < 34 {
        (32, 2)
    } else if x < 36 {
        (34, 2)
    } else if x < 40 {
        (36, 4)
    } else if x < 44 {
        (40, 4)
    } else if x < 48 {
        (44, 4)
    } else if x < 52 {
        (48, 4)
    } else if x < 56 {
        (52, 4)
    } else if x < 64 {
        (56, 8)
    } else if x < 68 {
        (64, 4)
    } else if x < 72 {
        (68, 4)
    } else if x < 76 {
        (72, 4)
    } else if x < 80 {
        (76, 4)
    } else if x < 84 {
        (80, 4)
    } else if x < 100 {
        (84, 16)
    } else {
        (100, 28)
    }
}

/// The error of a read that ends `avail` bytes into the header.
pub open spec fn short_header(at: int, avail: int) -> Error {
    let (o, z) = field_at(avail);
    if o >= 84 && at + o + z > usize::MAX {
        Error::Range
    } else {
        truncated(z, avail - o)
    }
}

/// Why a header at `at` is refused, if it is: a short stream, a wrong
/// signature, or a version above 5.0.
pub open spec fn header_error(d: Seq<u8>, at: int) -> Option<Error> {
    let avail = d.len() - at;
    if avail < 40 {
        Some(short_header(at, avail))
    } else if be_n(d, at + 36, 4) != MAGIC {
        Some(Error::BadSignature(Signature(be_n(d, at + 36, 4) as u32)))
    } else if avail < 128 {
        Some(short_header(at, avail))
    } else if validated_version(be_n(d, at + 8, 4) as u32) > 0x500_0000 {
        Some(Error::Unsupported("profile version"))
    } else {
        None
    }
}

pub open spec fn be32_at(d: Seq<u8>, i: int) -> u32 {
    be_n(d, i, 4) as u32
}

pub open spec fn be16_at(d: Seq<u8>, i: int) -> u16 {
    be_n(d, i, 2) as u16
}

/// The fields of a header read from `d` at `at`.
pub open spec fn header_fields(h: Header, d: Seq<u8>, at: int) -> bool {
    &&& h.size == be32_at(d, at)
    &&& h.cmm == Signature(be32_at(d, at + 4))
    &&& h.version == validated_version(be32_at(d, at + 8))
    &&& h.device_class == class_of(be32_at(d, at + 12))
    &&& h.color_space == cs_of(be32_at(d, at + 16))
    &&& h.pcs == cs_of(be32_at(d, at + 20))
    &&& h.date == (DateTime {
        year: be16_at(d, at + 24),
        month: be16_at(d, at + 26),
        day: be16_at(d, at + 28),
        hours: be16_at(d, at + 30),
        minutes: be16_at(d, at + 32),
        seconds: be16_at(d, at + 34),
    })
    &&& h.platform == Signature(be32_at(d, at + 40))
    &&& h.flags == be32_at(d, at + 44)
    &&& h.manufacturer == Signature(be32_at(d, at + 48))
    &&& h.model == be32_at(d, at + 52)
    &&& h.attributes == be_n(d, at + 56, 8) as u64
    &&& h.rendering_intent == intent_of(be32_at(d, at + 64))
    &&& h.illuminant[0] as int == signed(be_n(d, at + 68, 4), 0x1_0000_0000)
    &&& h.illuminant[1] as int == signed(be_n(d, at + 72, 4), 0x1_0000_0000)
    &&& h.illuminant[2] as int == signed(be_n(d, at + 76, 4), 0x1_0000_0000)
    &&& h.creator == Signature(be32_at(d, at + 80))
    &&& h.profile_id@ == d.subrange(at + 84, at + 100)
}


impl Header {
    /// Parse the header at the reader's position: every field big-endian,
    /// the signature checked, the version clamped and then limited to 5.0.
    /// The 28 reserved bytes are passed over.
    #[verifier::rlimit(50)]
    pub fn parse(r: &mut MemReader) -> (res: Result<Header, Error>)
        requires
            old(r).wf(),
        ensures
            final(r).wf(),
            final(r).data() == old(r).data(),
            match header_error(old(r).data(), old(r).at()) {
                Some(e) => res == Err::<Header, Error>(e),
                None => (res matches Ok(h) && header_fields(h, old(r).data(), old(r).at())
                    && final(r).at() == old(r).at() + 128),
            },
    {
        let ghost d = r.data();
        let ghost a = r.at();
        let size = r.read_u32()?;
        let cmm = Signature::from_raw(r.read_u32()?);
        let version_raw = r.read_u32()?;
        let device_class = ProfileClass::from_raw(r.read_u32()?);
        let color_space = ColorSpace::from_raw(r.read_u32()?);
        let pcs = ColorSpace::from_raw(r.read_u32()?);
        let year = r.read_u16()?;
        let month = r.read_u16()?;
        let day = r.read_u16()?;
        let hours = r.read_u16()?;
        let minutes = r.read_u16()?;
        let seconds = r.read_u16()?;
        let date = DateTime { year, month, day, hours, minutes, seconds };
        let magic = r.read_u32()?;
        if magic != MAGIC {
            return Err(Error::BadSignature(Signature::from_raw(magic)));
        }
        let platform = Signature::from_raw(r.read_u32()?);
        let flags = r.read_u32()?;
        let manufacturer = Signature::from_raw(r.read_u32()?);
        let model = r.read_u32()?;
        let attributes = r.read_u64()?;
        let rendering_intent = RenderingIntent::from_raw(r.read_u32()?);
        let x = r.read_s15f16()?;
        let y = r.read_s15f16()?;
        let z = r.read_s15f16()?;
        let creator = Signature::from_raw(r.read_u32()?);
        let mut profile_id = [0u8; 16];
        r.read_exact(&mut profile_id)?;
        let mut reserved = [0u8; 28];
        r.read_exact(&mut reserved)?;
        let version = validate_version(version_raw);
        if version > 0x500_0000 {
            return Err(Error::Unsupported("profile version"));
        }
        Ok(Header {
            size,
            cmm,
            version,
            device_class,
            color_space,
            pcs,
            date,
            platform,
            flags,
            manufacturer,
            model,
            attributes,
            rendering_intent,
            illuminant: [x, y, z],
            creator,
            profile_id,
        })
    }
}

} // verus!
