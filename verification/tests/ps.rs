use tintbox::header::ColorSpace;
use tintbox::ps::{
    channels_of, emit_cie_based_def, emit_intent, emit_lab2xyz, emit_pqr_stage, emit_range_check,
    emit_white_black_d50, emit_xyz2lab, output_value_sampler, patch_lut, reasonable_gridpoints,
    remove_cr, white_point_by_space, whites_are_equal, word2byte, write_clut, ClutDump, ForcedClut, Ps,
};

fn text(m: &Ps) -> String {
    String::from_utf8(m.buf.clone()).unwrap()
}

#[test]
fn write_byte_wraps_past_sixty_columns() {
    let mut m = Ps::new();
    for _ in 0..30 {
        m.write_byte(0xab);
    }
    assert_eq!(m.col, 60);
    assert!(!text(&m).contains('\n'));
    m.write_byte(0x0c);
    assert_eq!(m.col, 0);
    assert!(text(&m).ends_with("ab0c\n"));
    assert_eq!(m.buf.len(), 31 * 2 + 1);
}

#[test]
fn decimal_and_literal_text() {
    let mut m = Ps::new();
    m.s("a");
    m.d(-42);
    m.s(" ");
    m.d(i64::MIN);
    m.s(" ");
    m.d(7);
    assert_eq!(text(&m), "a-42 -9223372036854775808 7");
    assert_eq!(m.col, 0);
}

#[test]
fn word_to_byte_rounds_to_nearest() {
    for w in [0u16, 1, 128, 129, 257, 0x8080, 0x1234, 65534, 65535] {
        let expected = (w as f64 / 257.0 + 0.5).floor() as u8;
        assert_eq!(word2byte(w), expected, "w={w}");
    }
    assert_eq!(word2byte(128), 0);
    assert_eq!(word2byte(129), 1);
    assert_eq!(word2byte(65535), 255);
}

#[test]
fn white_comparison() {
    assert!(whites_are_equal(&[0xffff, 0x8080, 0x8080], &[0xffff, 0x8080, 0x8080]));
    assert!(!whites_are_equal(&[0xffff, 0x8080, 0x8080], &[0xffff, 0x8081, 0x8080]));
    // A difference above 0xf000 counts as equal (a wrapped-around white).
    assert!(whites_are_equal(&[0xffff, 0], &[0, 5]));
    assert!(whites_are_equal(&[1, 2], &[1]));
}

#[test]
fn spaces_white_points_and_grids() {
    assert_eq!(channels_of(ColorSpace::Cmyk), Some(4));
    assert_eq!(channels_of(ColorSpace::Hsv), None);
    assert_eq!(reasonable_gridpoints(ColorSpace::Cmyk), 17);
    assert_eq!(reasonable_gridpoints(ColorSpace::Rgb), 33);
    assert_eq!(reasonable_gridpoints(ColorSpace::Hsv), 33);
    assert_eq!(white_point_by_space(ColorSpace::Lab), Some((vec![0xffff, 0x8080, 0x8080], 3)));
    assert_eq!(white_point_by_space(ColorSpace::Cmyk), Some((vec![0, 0, 0, 0], 4)));
    assert_eq!(white_point_by_space(ColorSpace::Hsv), None);
}

#[test]
fn fixed_blocks() {
    let mut m = Ps::new();
    emit_intent(&mut m, 1);
    emit_intent(&mut m, 9);
    emit_range_check(&mut m);
    assert_eq!(
        text(&m),
        "/RenderingIntent (RelativeColorimetric)\n/RenderingIntent (Undefined)\ndup 0.0 lt { pop 0.0 } if dup 1.0 gt { pop 1.0 } if "
    );
    let mut m = Ps::new();
    emit_lab2xyz(&mut m);
    assert!(text(&m).starts_with("/RangeABC [ 0 1 0 1 0 1]\n/DecodeABC [\n{100 mul  16 add 116 div } bind\n"));
    assert!(text(&m).ends_with("ifelse 0.824900 mul} bind\n]\n"));
    let mut m = Ps::new();
    emit_xyz2lab(&mut m);
    assert!(text(&m).starts_with("/RangeLMN [ -0.635 2.0 0 2 -0.635 2.0 ]\n/EncodeLMN [\n"));
}

#[test]
fn pqr_stages() {
    let mut m = Ps::new();
    emit_pqr_stage(&mut m, false, None);
    assert!(text(&m).starts_with("% Bradford Cone Space\n"));
    assert!(text(&m).contains("{exch pop exch 5 get mul exch pop exch 5 get div} bind\n]\n"));
    let mut m = Ps::new();
    emit_pqr_stage(&mut m, true, None);
    assert!(text(&m).contains("plus BPC\n/TransformPQR [\n{4 index 3 get div 2 index 3 get mul 2 index 3 get 2 index 3 get sub mul"));
    let mut m = Ps::new();
    emit_pqr_stage(&mut m, true, Some(("0.9505", "1", "1.089")));
    assert!(text(&m).contains("{0.9642 mul 0.9505 div exch pop"));
    assert!(text(&m).ends_with("{0.8249 mul 1.089 div exch pop exch pop exch pop exch pop} bind\n]\n"));
}

#[test]
fn remove_cr_replaces_breaks_and_truncates() {
    assert_eq!(remove_cr("a\r\nb"), "a  b");
    let long: String = "x".repeat(3000);
    assert_eq!(remove_cr(&long).chars().count(), 2047);
    assert_eq!(remove_cr("caf\u{e9}\n"), "caf\u{e9} ");
}

#[test]
fn clut_dump_rows_and_bytes() {
    let clut = ForcedClut { table: vec![0x0000, 0x8080, 0xffff, 0x1234], n_samples: vec![2, 2], n_outputs: 1 };
    let mut m = Ps::new();
    write_clut(&mut m, &clut, "<", ">\n", "", "", false, ColorSpace::XYZ);
    assert_eq!(text(&m), "[ 2  2  [\n<0080>\n<ff12>\n] ");
}

#[test]
fn clut_dump_with_minor_rows_and_white_fix() {
    // A 2x2x2 Lab grid with one output: the node at L=100, a=b=0x8000 is
    // within the near-neutral band only for the white fix.
    let clut = ForcedClut { table: vec![1u16; 8], n_samples: vec![2, 2, 2], n_outputs: 1 };
    let mut m = Ps::new();
    write_clut(&mut m, &clut, "[", "]\n", "<", ">\n", false, ColorSpace::Gray);
    assert_eq!(text(&m), "[ 2  2  2  [\n[<0000>\n<0000>\n]\n[<0000>\n<0000>\n]\n] ");
}

#[test]
fn sampler_forces_near_neutral_white() {
    let mut m = Ps::new();
    let mut d = ClutDump {
        pre_maj: "<",
        post_maj: ">\n",
        pre_min: "",
        post_min: "",
        fix_white: true,
        color_space: ColorSpace::Cmyk,
        first_component: -1,
        second_component: -1,
    };
    let mut out = [0x1111u16, 0x2222, 0x3333, 0x4444];
    output_value_sampler(&mut m, &mut d, &[0xffff, 0x8000, 0x7900], &mut out);
    assert_eq!(out, [0, 0, 0, 0]);
    assert_eq!(text(&m), "<00000000");
    let mut out2 = [0xffffu16, 0xffff, 0xffff, 0xffff];
    output_value_sampler(&mut m, &mut d, &[0xffff, 0x9000, 0x8000], &mut out2);
    assert_eq!(out2, [0xffff; 4]);
    assert_eq!(d.second_component, 0x9000);
}

#[test]
fn patch_lut_writes_the_exact_node() {
    // 3 inputs of 3 points, 2 outputs.
    let mut clut = ForcedClut { table: vec![0u16; 27 * 2], n_samples: vec![3, 3, 3], n_outputs: 2 };
    patch_lut(&mut clut, &[0xffff, 0x7fff + 1, 0], &[7, 8]);
    // 0x8000 * 2 is not a multiple of 65535: nothing changes.
    assert!(clut.table.iter().all(|&v| v == 0));
    patch_lut(&mut clut, &[0xffff, 0xffff, 0], &[7, 8]);
    // Node (2, 2, 0) is number 2*9 + 2*3 + 0 = 24; outputs at 48 and 49.
    assert_eq!(clut.table[48], 7);
    assert_eq!(clut.table[49], 8);
    assert_eq!(clut.table.iter().filter(|&&v| v != 0).count(), 2);
    // Two inputs are never patched.
    let mut two = ForcedClut { table: vec![0u16; 4], n_samples: vec![2, 2], n_outputs: 1 };
    patch_lut(&mut two, &[0, 0], &[9]);
    assert_eq!(two.table, vec![0; 4]);
}

#[test]
fn cie_based_def_shapes() {
    let clut = ForcedClut { table: vec![0u16; 8 * 3], n_samples: vec![2, 2, 2], n_outputs: 3 };
    let mut m = Ps::new();
    assert!(emit_cie_based_def(&mut m, &clut, 3, 0, ("0.000000", "0.000000", "0.000000")));
    let t = text(&m);
    let row = format!("<{}>\n", "00".repeat(12));
    assert!(t.starts_with(&format!("[ /CIEBasedDEF\n<<\n/Table [ 2  2  2  [\n{row}{row}] ]\n")));
    assert!(t.ends_with("/RenderingIntent (Perceptual)\n   >>\n]\n"));
    assert!(t.contains("/BlackPoint [0.000000 0.000000 0.000000]\n/WhitePoint [0.964200 1.000000 0.824900]\n"));
    let mut m = Ps::new();
    assert!(!emit_cie_based_def(&mut m, &clut, 2, 0, ("0", "0", "0")));
    assert!(m.buf.is_empty());
    let mut m = Ps::new();
    emit_white_black_d50(&mut m, ("0.1", "0.2", "0.3"));
    assert_eq!(text(&m), "/BlackPoint [0.1 0.2 0.3]\n/WhitePoint [0.964200 1.000000 0.824900]\n");
}
