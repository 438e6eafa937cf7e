use tintbox::header::{ColorSpace, ProfileClass, RenderingIntent};
use tintbox::pipeline::Stage;
use tintbox::virtuals::{identity_clut_pipeline, virtual_header};

#[test]
fn identity_clut_gives_back_each_node() {
    let p = identity_clut_pipeline(3);
    assert_eq!((p.input_channels, p.output_channels), (3, 3));
    assert_eq!(p.stages().len(), 1);
    match &p.stages()[0] {
        Stage::Clut(c) => {
            assert_eq!(c.grid, vec![2, 2, 2]);
            assert!(c.implements_identity);
            assert!(!c.is_trilinear);
            assert_eq!(c.table.len(), 24);
            for i in 0..8usize {
                for t in 0..3usize {
                    let bit = (i >> (2 - t)) & 1;
                    let want = if bit == 1 { 0xffff } else { 0 };
                    assert_eq!(c.table[i * 3 + t], want, "node {i} axis {t}");
                }
            }
            assert_eq!(&c.table[3..6], &[0, 0, 0xffff]);
            assert_eq!(&c.table[12..15], &[0xffff, 0, 0]);
        }
        _ => panic!("expected the CLUT"),
    }
}

#[test]
fn identity_clut_of_one_and_zero_inputs() {
    let p = identity_clut_pipeline(1);
    match &p.stages()[0] {
        Stage::Clut(c) => assert_eq!(c.table, vec![0, 0xffff]),
        _ => panic!("expected the CLUT"),
    }
    let p = identity_clut_pipeline(0);
    match &p.stages()[0] {
        Stage::Clut(c) => {
            assert!(c.table.is_empty());
            assert!(c.grid.is_empty());
        }
        _ => panic!("expected the CLUT"),
    }
}

#[test]
fn virtual_header_is_a_d50_rgb_display_header() {
    let h = virtual_header();
    assert_eq!(h.version, 0x0440_0000);
    assert_eq!(h.device_class, ProfileClass::Display);
    assert_eq!(h.color_space, ColorSpace::Rgb);
    assert_eq!(h.pcs, ColorSpace::XYZ);
    assert_eq!(h.rendering_intent, RenderingIntent::Perceptual);
    assert_eq!(h.date.year, 2026);
    assert_eq!((h.date.month, h.date.day), (6, 15));
    assert_eq!((h.date.hours, h.date.minutes, h.date.seconds), (12, 34, 56));
    assert_eq!(h.illuminant, [0xF6D6, 0x10000, 0xD32D]);
    assert_eq!(h.profile_id, [0u8; 16]);
    assert_eq!((h.cmm.0, h.creator.0, h.platform.0, h.manufacturer.0), (0, 0, 0, 0));
    assert_eq!((h.size, h.flags, h.model, h.attributes), (0, 0, 0, 0));
}
