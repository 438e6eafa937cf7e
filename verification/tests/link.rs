use tintbox::directory::TagEntry;
use tintbox::header::{ColorSpace, DateTime, Header, ProfileClass, RenderingIntent};
use tintbox::error::Error;
use tintbox::pipeline::{Pipeline, Stage};
use tintbox::link::{
    add_conversion,
    channels_of_color_space, color_space_is_compatible, darker_colorant_device_format, is_clut,
    is_ink_colorspace, is_intent_supported, is_matrix_shaper, link_bpc_mutation, Direction,
};
use tintbox::sig::Signature;

fn header(version: u32, class: ProfileClass, cs: ColorSpace) -> Header {
    Header {
        size: 0,
        cmm: Signature::from_raw(0),
        version,
        device_class: class,
        color_space: cs,
        pcs: ColorSpace::XYZ,
        date: DateTime { year: 2024, month: 1, day: 1, hours: 0, minutes: 0, seconds: 0 },
        platform: Signature::from_raw(0),
        flags: 0,
        manufacturer: Signature::from_raw(0),
        model: 0,
        attributes: 0,
        rendering_intent: RenderingIntent::Perceptual,
        illuminant: [63190, 65536, 54061],
        creator: Signature::from_raw(0),
        profile_id: [0; 16],
    }
}

fn entry(sig: &[u8; 4]) -> TagEntry {
    TagEntry { sig: Signature::from_bytes(*sig), offset: 128, size: 20, linked: None }
}

#[test]
fn link_bpc_mutation_absolute_forces_off() {
    let v4 = header(0x0440_0000, ProfileClass::Display, ColorSpace::Rgb);
    let mut bpc = [true, true];
    link_bpc_mutation(
        &[RenderingIntent::AbsoluteColorimetric, RenderingIntent::AbsoluteColorimetric],
        &[v4, v4],
        &mut bpc,
    );
    assert_eq!(bpc, [false, false]);
}

#[test]
fn link_bpc_mutation_v4_perceptual_forces_on() {
    let v4 = header(0x0440_0000, ProfileClass::Display, ColorSpace::Rgb);
    let mut bpc = [false, false];
    link_bpc_mutation(&[RenderingIntent::Perceptual, RenderingIntent::Saturation], &[v4, v4], &mut bpc);
    assert_eq!(bpc, [true, true]);
}

#[test]
fn link_bpc_mutation_v2_perceptual_unchanged() {
    let v2 = header(0x0210_0000, ProfileClass::Display, ColorSpace::Rgb);
    let mut bpc = [false, true];
    link_bpc_mutation(&[RenderingIntent::Perceptual, RenderingIntent::Perceptual], &[v2, v2], &mut bpc);
    assert_eq!(bpc, [false, true]);
    let mut bpc2 = [true, false];
    link_bpc_mutation(
        &[RenderingIntent::RelativeColorimetric, RenderingIntent::RelativeColorimetric],
        &[v2, v2],
        &mut bpc2,
    );
    assert_eq!(bpc2, [true, false]);
}

#[test]
fn link_bpc_mutation_leaves_flags_past_the_profiles() {
    let v4 = header(0x0400_0000, ProfileClass::Output, ColorSpace::Cmyk);
    let mut bpc = [false, false, true];
    link_bpc_mutation(
        &[RenderingIntent::Saturation, RenderingIntent::AbsoluteColorimetric, RenderingIntent::AbsoluteColorimetric],
        &[v4],
        &mut bpc,
    );
    assert_eq!(bpc, [true, false, true]);
}

#[test]
fn compatible_spaces() {
    assert!(color_space_is_compatible(ColorSpace::Rgb, ColorSpace::Rgb));
    assert!(color_space_is_compatible(ColorSpace::Mch4, ColorSpace::Cmyk));
    assert!(color_space_is_compatible(ColorSpace::Cmyk, ColorSpace::Mch4));
    assert!(color_space_is_compatible(ColorSpace::Lab, ColorSpace::XYZ));
    assert!(color_space_is_compatible(ColorSpace::XYZ, ColorSpace::Lab));
    assert!(!color_space_is_compatible(ColorSpace::Rgb, ColorSpace::Cmyk));
    assert!(!color_space_is_compatible(ColorSpace::Mch3, ColorSpace::Cmy));
}

#[test]
fn channel_counts() {
    assert_eq!(channels_of_color_space(ColorSpace::Gray), Some(1));
    assert_eq!(channels_of_color_space(ColorSpace::Lab), Some(3));
    assert_eq!(channels_of_color_space(ColorSpace::LuvK), Some(4));
    assert_eq!(channels_of_color_space(ColorSpace::MchF), Some(15));
    assert_eq!(channels_of_color_space(ColorSpace::Color10), Some(10));
    assert_eq!(channels_of_color_space(ColorSpace::Named), None);
}

#[test]
fn ink_spaces() {
    assert!(is_ink_colorspace(ColorSpace::Cmyk));
    assert!(is_ink_colorspace(ColorSpace::Mch1));
    assert!(is_ink_colorspace(ColorSpace::Color15));
    assert!(!is_ink_colorspace(ColorSpace::Rgb));
    assert!(!is_ink_colorspace(ColorSpace::Lab));
}

#[test]
fn darker_colorant_formats() {
    assert_eq!(darker_colorant_device_format(ColorSpace::Gray), Some(((3 << 16) | (1 << 3) | 2, [0, 0, 0, 0], 1)));
    assert_eq!(
        darker_colorant_device_format(ColorSpace::Lab),
        Some(((10 << 16) | (3 << 3) | 2, [0, 0x8080, 0x8080, 0], 3))
    );
    assert_eq!(
        darker_colorant_device_format(ColorSpace::Cmyk),
        Some(((6 << 16) | (4 << 3) | 2, [0xffff; 4], 4))
    );
    assert_eq!(darker_colorant_device_format(ColorSpace::Hsv), None);
}

#[test]
fn matrix_shaper_detection() {
    let rgb = header(0x0420_0000, ProfileClass::Display, ColorSpace::Rgb);
    let full: Vec<TagEntry> = [b"rXYZ", b"gXYZ", b"bXYZ", b"rTRC", b"gTRC", b"bTRC"].iter().map(|s| entry(s)).collect();
    assert!(is_matrix_shaper(&rgb, &full));
    assert!(!is_matrix_shaper(&rgb, &full[..5]));
    let gray = header(0x0420_0000, ProfileClass::Display, ColorSpace::Gray);
    assert!(is_matrix_shaper(&gray, &[entry(b"kTRC")]));
    assert!(!is_matrix_shaper(&gray, &full));
    let cmyk = header(0x0420_0000, ProfileClass::Output, ColorSpace::Cmyk);
    assert!(!is_matrix_shaper(&cmyk, &full));
}

#[test]
fn clut_detection_by_intent_and_direction() {
    let out = header(0x0420_0000, ProfileClass::Output, ColorSpace::Cmyk);
    let tags = [entry(b"A2B0"), entry(b"B2A1")];
    assert!(is_clut(&out, &tags, RenderingIntent::Perceptual, Direction::Input));
    assert!(!is_clut(&out, &tags, RenderingIntent::Perceptual, Direction::Output));
    assert!(is_clut(&out, &tags, RenderingIntent::RelativeColorimetric, Direction::Output));
    assert!(is_clut(&out, &tags, RenderingIntent::AbsoluteColorimetric, Direction::Output));
    assert!(!is_clut(&out, &tags, RenderingIntent::Saturation, Direction::Output));
    assert!(!is_clut(&out, &tags, RenderingIntent::Other(7), Direction::Input));
    let link = header(0x0420_0000, ProfileClass::Link, ColorSpace::Rgb);
    assert!(is_clut(&link, &[], RenderingIntent::Perceptual, Direction::Input));
    assert!(!is_clut(&link, &tags, RenderingIntent::Saturation, Direction::Input));
    assert!(!is_intent_supported(&out, &tags, RenderingIntent::Saturation, Direction::Input));
    let gray = header(0x0420_0000, ProfileClass::Display, ColorSpace::Gray);
    assert!(is_intent_supported(&gray, &[entry(b"kTRC")], RenderingIntent::Saturation, Direction::Input));
}

const IDENT: [f64; 9] = [1.0, 0.0, 0.0, 0.0, 1.0, 0.0, 0.0, 0.0, 1.0];

/// Whether the layer is close enough to the identity to be left out.
fn empty_layer(m: &[f64; 9], off: &[f64; 3]) -> bool {
    let mut diff = 0.0f64;
    for i in 0..9 {
        diff += (m[i] - IDENT[i]).abs();
    }
    for v in off {
        diff += v.abs();
    }
    diff < 0.002
}

fn conv(p: &mut Pipeline, a: ColorSpace, b: ColorSpace, m: [f64; 9], off: [f64; 3]) -> Result<(), Error> {
    let mb: [u64; 9] = m.map(|x| x.to_bits());
    let ob: [u64; 3] = off.map(|x| x.to_bits());
    add_conversion(p, a, b, &mb, &ob, empty_layer(&m, &off))
}

#[test]
fn add_conversion_xyz_to_xyz_empty_inserts_nothing() {
    let mut p = Pipeline::new(3, 3);
    assert!(conv(&mut p, ColorSpace::XYZ, ColorSpace::XYZ, IDENT, [0.0; 3]).is_ok());
    assert!(p.stages().is_empty(), "identity XYZ->XYZ adds no stage");
}

#[test]
fn add_conversion_xyz_to_xyz_non_empty_inserts_matrix() {
    let mut m = IDENT;
    m[0] = 2.0;
    let mut p = Pipeline::new(3, 3);
    assert!(conv(&mut p, ColorSpace::XYZ, ColorSpace::XYZ, m, [0.0; 3]).is_ok());
    assert_eq!(p.stages().len(), 1);
    match &p.stages()[0] {
        Stage::Matrix { rows, cols, m: mm, offset } => {
            assert_eq!((*rows, *cols), (3, 3));
            assert_eq!(mm[0], 2.0f64.to_bits());
            assert_eq!(offset.as_ref().map(|o| o.len()), Some(3));
        }
        _ => panic!("expected a matrix"),
    }
}

#[test]
fn add_conversion_xyz_to_lab() {
    let mut p = Pipeline::new(3, 3);
    assert!(conv(&mut p, ColorSpace::XYZ, ColorSpace::Lab, IDENT, [0.0; 3]).is_ok());
    assert_eq!(p.stages().len(), 1);
    assert!(matches!(p.stages()[0], Stage::Xyz2Lab));

    let mut m2 = IDENT;
    m2[4] = 0.5;
    let mut p2 = Pipeline::new(3, 3);
    assert!(conv(&mut p2, ColorSpace::XYZ, ColorSpace::Lab, m2, [0.0; 3]).is_ok());
    assert_eq!(p2.stages().len(), 2);
    assert!(matches!(p2.stages()[0], Stage::Matrix { .. }));
    assert!(matches!(p2.stages()[1], Stage::Xyz2Lab));
}

#[test]
fn add_conversion_lab_to_xyz() {
    let mut p = Pipeline::new(3, 3);
    assert!(conv(&mut p, ColorSpace::Lab, ColorSpace::XYZ, IDENT, [0.0; 3]).is_ok());
    assert_eq!(p.stages().len(), 1);
    assert!(matches!(p.stages()[0], Stage::Lab2Xyz));

    let mut m2 = IDENT;
    m2[8] = 0.5;
    let mut p2 = Pipeline::new(3, 3);
    assert!(conv(&mut p2, ColorSpace::Lab, ColorSpace::XYZ, m2, [0.0; 3]).is_ok());
    assert_eq!(p2.stages().len(), 2);
    assert!(matches!(p2.stages()[0], Stage::Lab2Xyz));
    assert!(matches!(p2.stages()[1], Stage::Matrix { .. }));
}

#[test]
fn add_conversion_lab_to_lab() {
    let mut p = Pipeline::new(3, 3);
    assert!(conv(&mut p, ColorSpace::Lab, ColorSpace::Lab, IDENT, [0.0; 3]).is_ok());
    assert!(p.stages().is_empty());

    let mut m2 = IDENT;
    m2[0] = 1.5;
    let mut p2 = Pipeline::new(3, 3);
    assert!(conv(&mut p2, ColorSpace::Lab, ColorSpace::Lab, m2, [0.0; 3]).is_ok());
    assert_eq!(p2.stages().len(), 3);
    assert!(matches!(p2.stages()[0], Stage::Lab2Xyz));
    assert!(matches!(p2.stages()[1], Stage::Matrix { .. }));
    assert!(matches!(p2.stages()[2], Stage::Xyz2Lab));
}

#[test]
fn add_conversion_default_same_space_ok_mismatch_err() {
    let mut p = Pipeline::new(3, 3);
    assert!(conv(&mut p, ColorSpace::Rgb, ColorSpace::Rgb, IDENT, [0.0; 3]).is_ok());
    assert!(p.stages().is_empty());

    let mut p2 = Pipeline::new(3, 3);
    let err = conv(&mut p2, ColorSpace::Rgb, ColorSpace::Cmyk, IDENT, [0.0; 3]);
    assert!(matches!(err, Err(Error::Corrupt("ColorSpace mismatch"))));
    let err = conv(&mut p2, ColorSpace::XYZ, ColorSpace::Rgb, IDENT, [0.0; 3]);
    assert!(matches!(err, Err(Error::Corrupt("ColorSpace mismatch"))));
}

#[test]
fn add_conversion_stops_at_a_refused_stage() {
    // A one-channel pipeline cannot take the three-channel Lab2Xyz stage.
    let mut p = Pipeline::new(1, 1);
    let err = conv(&mut p, ColorSpace::Lab, ColorSpace::XYZ, IDENT, [0.0; 3]);
    assert!(matches!(
        err,
        Err(Error::Unsupported("stage input width does not chain with the previous stage"))
    ));
    assert!(p.stages().is_empty());
}
