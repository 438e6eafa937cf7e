use std::cell::{Cell, RefCell};
use tintbox::gamut::{float_formatter_for_profile, lcms_color_space, quantize_val, slice_space_16};
use tintbox::header::{ColorSpace, DateTime, Header, ProfileClass, RenderingIntent};
use tintbox::sig::Signature;

#[test]
fn quantize_val_endpoints_and_rounding() {
    assert_eq!(quantize_val(0, 2), 0);
    assert_eq!(quantize_val(1, 2), 65535);
    assert_eq!(quantize_val(0, 33), 0);
    assert_eq!(quantize_val(32, 33), 65535);
    // 16 * 65535 / 32 = 32767.5 rounds half up.
    assert_eq!(quantize_val(16, 33), 32768);
    // 1 * 65535 / 5 = 13107 exactly.
    assert_eq!(quantize_val(1, 6), 13107);
    // 1 * 65535 / 73 = 897.74 rounds to 898.
    assert_eq!(quantize_val(1, 74), 898);
    assert_eq!(quantize_val(5, 2), 65535);
    assert_eq!(quantize_val(0, 1), 0x7fff);
    assert_eq!(quantize_val(1, 1), 0xffff);
}

#[test]
fn slice_space_visits_nodes_last_axis_fastest() {
    let seen = RefCell::new(Vec::new());
    let ok = slice_space_16(&[2, 3], |n: &[u16]| {
        seen.borrow_mut().push(n.to_vec());
        true
    });
    assert!(ok);
    let seen = seen.into_inner();
    assert_eq!(
        seen,
        vec![
            vec![0, 0],
            vec![0, 32768],
            vec![0, 65535],
            vec![65535, 0],
            vec![65535, 32768],
            vec![65535, 65535]
        ]
    );
}

#[test]
fn slice_space_stops_when_sampler_declines() {
    let calls = Cell::new(0u32);
    let ok = slice_space_16(&[6, 74, 74], |_n: &[u16]| {
        calls.set(calls.get() + 1);
        calls.get() < 10
    });
    assert!(!ok);
    assert_eq!(calls.get(), 10);
}

#[test]
fn slice_space_degenerate_grids() {
    let calls = Cell::new(0u32);
    assert!(!slice_space_16(&[2; 16], |_n: &[u16]| {
        calls.set(calls.get() + 1);
        true
    }));
    assert!(!slice_space_16(&[3, 0, 3], |_n: &[u16]| {
        calls.set(calls.get() + 1);
        true
    }));
    assert_eq!(calls.get(), 0);
    assert!(slice_space_16(&[], |n: &[u16]| n.is_empty()));
}

#[test]
fn pixel_type_codes() {
    assert_eq!(lcms_color_space(ColorSpace::Gray), Some(3));
    assert_eq!(lcms_color_space(ColorSpace::Cmyk), Some(6));
    assert_eq!(lcms_color_space(ColorSpace::Lab), Some(10));
    assert_eq!(lcms_color_space(ColorSpace::Mch7), Some(7));
    assert_eq!(lcms_color_space(ColorSpace::Color12), Some(12));
    assert_eq!(lcms_color_space(ColorSpace::Named), None);
}

#[test]
fn float_format_of_a_cmyk_profile() {
    let h = Header {
        size: 0,
        cmm: Signature::from_raw(0),
        version: 0x0420_0000,
        device_class: ProfileClass::Output,
        color_space: ColorSpace::Cmyk,
        pcs: ColorSpace::Lab,
        date: DateTime { year: 2024, month: 1, day: 1, hours: 0, minutes: 0, seconds: 0 },
        platform: Signature::from_raw(0),
        flags: 0,
        manufacturer: Signature::from_raw(0),
        model: 0,
        attributes: 0,
        rendering_intent: RenderingIntent::Perceptual,
        illuminant: [63190, 65536, 54061],
        creator: Signature::from_raw(0),
        profile_id: [0; 16],
    };
    assert_eq!(float_formatter_for_profile(&h), Some((1 << 22) | (6 << 16) | (4 << 3) | 4));
    let named = Header { color_space: ColorSpace::Named, ..h };
    assert_eq!(float_formatter_for_profile(&named), None);
}

#[test]
fn quantize_val_rounds_at_the_fast_floor_resolution() {
    // 49153 * 65535 / 65537 + 0.5 = 49151.999992..., less than 1/65536 below
    // 49152: the fast-floor rounding lifts it to 49152 before the floor.
    assert_eq!(quantize_val(49153, 65538), 49152);
    assert_eq!(quantize_val(1, 65538), 1);
    assert_eq!(quantize_val(32768, 65538), 32767);
    assert_eq!(quantize_val(100000, 131073), 49999);
    assert_eq!(quantize_val(65537, 65538), 65535);
}
