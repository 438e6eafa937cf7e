use tintbox::curve::build_tabulated_16;
use tintbox::pipeline::{Pipeline, Stage};
use tintbox::matshaper::{
    clip_1fixed14, fits_lossless_matshaper, matrix_3x3, matshaper_shape, tone_curves_3, MatShaper8Data, MatShaperShape,
};

fn double_to_1fixed14(x: f64) -> i32 {
    (x * 16384.0 + 0.5).floor() as i32
}

fn quick_saturate_word(d: f64) -> u16 {
    let d = d + 0.5;
    if d <= 0.0 {
        return 0;
    }
    if d >= 65535.0 {
        return 0xffff;
    }
    d.floor() as u16
}

fn from_16_to_8(rgb: u16) -> u8 {
    (((rgb as u32 * 65281 + 8_388_608) >> 24) & 0xff) as u8
}

fn from_8_to_16(rgb: u8) -> u16 {
    ((rgb as u16) << 8) | rgb as u16
}

/// Tables of identity curves, as the float builder fills them.
fn linear_tables(mat: [[f64; 3]; 3], is_8bit_output: bool) -> MatShaper8Data {
    let mut first = [0i32; 256];
    for (i, slot) in first.iter_mut().enumerate() {
        let r = (i as f64 / 255.0) as f32;
        *slot = double_to_1fixed14(r as f64);
    }
    let mut second = vec![0u16; 16385];
    for (i, slot) in second.iter_mut().enumerate() {
        let val = ((i as f64 / 16384.0) as f32) as f64;
        let w = quick_saturate_word(val * 65535.0);
        *slot = if is_8bit_output { from_8_to_16(from_16_to_8(w)) } else { w };
    }
    let mut m = [[0i32; 3]; 3];
    for i in 0..3 {
        for j in 0..3 {
            m[i][j] = double_to_1fixed14(mat[i][j]);
        }
    }
    MatShaper8Data::from_tables([first; 3], m, [0; 3], [second.clone(), second.clone(), second])
}

#[test]
fn eval_identity_matshaper_is_passthrough_8bit() {
    let mat = [[1.0, 0.0, 0.0], [0.0, 1.0, 0.0], [0.0, 0.0, 1.0]];
    let p = linear_tables(mat, true);
    for v in [0u8, 1, 64, 127, 128, 200, 254, 255] {
        let w = from_8_to_16(v);
        let out = p.eval(&[w, w, w]);
        assert_eq!(from_16_to_8(out[0]), v, "channel R at in byte {v}");
        assert_eq!(from_16_to_8(out[1]), v);
        assert_eq!(from_16_to_8(out[2]), v);
    }
}

#[test]
fn eval_known_scaling_matrix() {
    let mat = [[0.5, 0.0, 0.0], [0.0, 1.0, 0.0], [0.0, 0.0, 1.0]];
    let p = linear_tables(mat, false);
    let w = from_8_to_16(255);
    let out = p.eval(&[w, w, w]);
    // Shaper1[255] = 16384, l1 = (8192 * 16384 + 0x2000) >> 14 = 8192.
    assert_eq!(out[0], 32768);
    assert!(out[0] > 30000 && out[0] < 35000, "R={}", out[0]);
    assert_eq!(out[1], 65535);
    assert_eq!(out[2], 65535);
}

#[test]
fn eval_uses_low_byte_offset_and_clip() {
    let mut second = vec![0u16; 16385];
    for (i, slot) in second.iter_mut().enumerate() {
        *slot = (i * 3) as u16;
    }
    let mut first = [0i32; 256];
    for (i, slot) in first.iter_mut().enumerate() {
        *slot = (i as i32) * 64;
    }
    // Row 0 negates red (clips to 0), row 1 adds an offset of 0.25, row 2
    // doubles blue (clips to 16384 at the top).
    let mat = [[-16384, 0, 0], [0, 16384, 0], [0, 0, 32768]];
    let off = [0, 4096, 0];
    let p = MatShaper8Data::from_tables([first; 3], mat, off, [second.clone(), second.clone(), second]);
    // Only the low byte indexes the first shaper.
    let out = p.eval(&[0xAB10, 0x0020, 0x00FF]);
    assert_eq!(out[0], 0);
    // g = 0x20 * 64 = 2048; (16384 * 2048 + 4096 + 0x2000) >> 14 = 2048.
    assert_eq!(out[1], 2048 * 3);
    // b = 0xFF * 64 = 16320; (32768 * 16320 + 0x2000) >> 14 = 32640, clipped to 16384.
    assert_eq!(out[2], 16384 * 3);
}

#[test]
fn clip_1fixed14_bounds() {
    assert_eq!(clip_1fixed14(-5), 0);
    assert_eq!(clip_1fixed14(0), 0);
    assert_eq!(clip_1fixed14(8192), 8192);
    assert_eq!(clip_1fixed14(16384), 16384);
    assert_eq!(clip_1fixed14(16385), 16384);
    assert_eq!(clip_1fixed14(i32::MAX), 16384);
}

const RGB_8: u32 = (4 << 16) | (3 << 3) | 1;
const RGB_16: u32 = (4 << 16) | (3 << 3) | 2;
const RGB_FLT: u32 = (1 << 22) | (4 << 16) | (3 << 3) | 4;
const CMYK_8: u32 = (6 << 16) | (4 << 3) | 1;

fn curves3() -> Stage {
    Stage::ToneCurves((0..3).map(|_| build_tabulated_16(&[0, 0xffff])).collect())
}

fn mat(offset: bool) -> Stage {
    let one = 1.0f64.to_bits();
    let zero = 0.0f64.to_bits();
    Stage::Matrix {
        rows: 3,
        cols: 3,
        m: vec![one, zero, zero, zero, one, zero, zero, zero, one],
        offset: if offset { Some(vec![zero; 3]) } else { None },
    }
}

fn pipeline(stages: Vec<Stage>) -> Pipeline {
    let mut p = Pipeline::new(3, 3);
    for s in stages {
        assert!(p.insert_stage_at_end(s).is_ok());
    }
    p
}

#[test]
fn matrix_shaper_shapes_are_detected() {
    let one = pipeline(vec![curves3(), mat(true), curves3()]);
    assert_eq!(matshaper_shape(&one, RGB_8, RGB_8), Some(MatShaperShape::OneMatrix));
    assert_eq!(matshaper_shape(&one, RGB_8, RGB_16), Some(MatShaperShape::OneMatrix));
    assert!(fits_lossless_matshaper(&one, RGB_8, RGB_16));
    let two = pipeline(vec![curves3(), mat(false), mat(true), curves3()]);
    assert_eq!(matshaper_shape(&two, RGB_8, RGB_8), Some(MatShaperShape::TwoMatrices));
    assert!(!fits_lossless_matshaper(&two, RGB_8, RGB_8));
    // The first of two matrices may not carry an offset.
    let off_first = pipeline(vec![curves3(), mat(true), mat(false), curves3()]);
    assert_eq!(matshaper_shape(&off_first, RGB_8, RGB_8), None);
}

#[test]
fn matrix_shaper_needs_rgb_8bit_integer_formats() {
    let one = pipeline(vec![curves3(), mat(false), curves3()]);
    assert_eq!(matshaper_shape(&one, RGB_16, RGB_8), None);
    assert_eq!(matshaper_shape(&one, RGB_8, RGB_FLT), None);
    assert_eq!(matshaper_shape(&one, CMYK_8, RGB_8), None);
    assert!(!fits_lossless_matshaper(&one, RGB_FLT, RGB_8));
    assert!(!fits_lossless_matshaper(&one, RGB_8, CMYK_8));
    let short = pipeline(vec![curves3(), mat(false)]);
    assert_eq!(matshaper_shape(&short, RGB_8, RGB_8), None);
    assert!(!fits_lossless_matshaper(&short, RGB_8, RGB_8));
}

#[test]
fn stage_pickers() {
    assert!(tone_curves_3(&curves3()).is_some());
    assert!(tone_curves_3(&Stage::ToneCurves(vec![build_tabulated_16(&[1, 2])])).is_none());
    assert!(tone_curves_3(&mat(false)).is_none());
    assert!(matrix_3x3(&mat(true)).is_some());
    assert!(matrix_3x3(&curves3()).is_none());
    let wide = Stage::Matrix { rows: 3, cols: 4, m: vec![0; 12], offset: None };
    assert!(matrix_3x3(&wide).is_none());
    assert_eq!(tone_curves_3(&curves3()).map(|c| c[2].table16().to_vec()), Some(vec![0, 0xffff]));
}

#[test]
fn declines_four_stage_pipeline() {
    let one = 1.0f64.to_bits();
    let zero = 0.0f64.to_bits();
    let ident = vec![one, zero, zero, zero, one, zero, zero, zero, one];
    let mut p = Pipeline::new(3, 3);
    assert!(p.insert_stage_at_end(curves3()).is_ok());
    assert!(p.insert_stage_at_end(Stage::Matrix { rows: 3, cols: 3, m: ident.clone(), offset: None }).is_ok());
    assert!(p.insert_stage_at_end(Stage::Matrix { rows: 3, cols: 3, m: ident, offset: None }).is_ok());
    assert!(p.insert_stage_at_end(curves3()).is_ok());
    let in_fmt = (4u32 << 16) | (3u32 << 3) | 1;
    assert!(!fits_lossless_matshaper(&p, in_fmt, in_fmt));
}
