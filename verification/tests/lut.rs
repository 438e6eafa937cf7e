use tintbox::error::Error;
use tintbox::io::MemReader;
use tintbox::lut::{
    cube_size, fixed_to_f64_bits, granular_clut_entries, read_a2b_b2a_header, read_clut_at, read_lut16,
    read_lut8, read_matrix_with_offset, uipow,
};
use tintbox::pipeline::{Pipeline, Stage};

#[test]
fn uipow_zero_base_or_count_is_zero() {
    assert_eq!(uipow(0, 17, 3), Some(0));
    assert_eq!(uipow(3, 0, 3), Some(0));
    assert_eq!(uipow(3, 0, 0), Some(0));
}

#[test]
fn uipow_exact_values() {
    assert_eq!(uipow(3, 17, 3), Some(3 * 17 * 17 * 17));
    assert_eq!(uipow(1, 2, 0), Some(1));
    assert_eq!(uipow(1, 2, 31), Some(1 << 31));
    assert_eq!(uipow(2, 2, 31), None);
    assert_eq!(uipow(1, 2, 32), None);
    assert_eq!(uipow(u32::MAX, 1, 40), Some(u32::MAX));
}

#[test]
fn cube_size_products_and_guards() {
    assert_eq!(cube_size(&[]), 1);
    assert_eq!(cube_size(&[2, 3, 4]), 24);
    assert_eq!(cube_size(&[33, 33, 33]), 35937);
    assert_eq!(cube_size(&[2, 1, 4]), 0);
    assert_eq!(cube_size(&[0, 3]), 0);
    // Product above u32::MAX / 15 is rejected even though it fits a u32.
    assert_eq!(cube_size(&[65536, 4370]), 0);
    assert_eq!(cube_size(&[65536, 4369]), 65536 * 4369);
    // Intermediate overflow is rejected, not wrapped.
    assert_eq!(cube_size(&[65536, 65536, 2]), 0);
}

#[test]
fn cube_size_result_leaves_headroom() {
    for dims in [[2u32, 2, 2, 2], [255, 255, 255, 255], [65535, 2, 2, 2], [17, 17, 17, 17]] {
        let r = cube_size(&dims);
        if r != 0 {
            assert!(r <= u32::MAX / 15);
        }
    }
}

#[test]
fn granular_clut_entries_total() {
    assert_eq!(granular_clut_entries(3, &[17, 17, 17]), Some(3 * 4913));
    assert_eq!(granular_clut_entries(0, &[17, 17, 17]), None);
    assert_eq!(granular_clut_entries(15, &[2, 1]), None);
    assert_eq!(granular_clut_entries(15, &[65536, 4368]), Some(15 * 65536 * 4368));
    assert_eq!(granular_clut_entries(16, &[65536, 4368]), None);
}

fn s15(v: i32) -> [u8; 4] {
    v.to_be_bytes()
}

fn matrix_bytes(m: [i32; 9]) -> Vec<u8> {
    m.iter().flat_map(|v| s15(*v)).collect()
}

const IDENTITY: [i32; 9] = [65536, 0, 0, 0, 65536, 0, 0, 0, 65536];

fn lut8(body: &[u8]) -> Result<Pipeline, Error> {
    let mut r = MemReader::new(body);
    read_lut8(&mut r, body.len() as u32)
}

fn lut16(body: &[u8]) -> Result<Pipeline, Error> {
    let mut r = MemReader::new(body);
    read_lut16(&mut r, body.len() as u32)
}

fn curves_of(s: &Stage) -> Vec<Vec<u16>> {
    match s {
        Stage::ToneCurves(c) => c.iter().map(|t| t.table16().to_vec()).collect(),
        _ => panic!("expected a tone-curve stage"),
    }
}

#[test]
fn mft1_with_16_input_channels_is_rejected_not_paniced() {
    let mut body = vec![0u8; 4200];
    body[0] = 16;
    body[1] = 1;
    body[2] = 2;
    let mut r = MemReader::new(&body);
    assert!(
        matches!(read_lut8(&mut r, body.len() as u32), Err(Error::Range)),
        "16-input mft1 must be rejected with Error::Range"
    );
}

/// One input, one output, a two-point CLUT: curves, CLUT, curves.
fn lut8_one_channel_body() -> Vec<u8> {
    let mut body = vec![1u8, 1, 2, 0];
    body.extend(matrix_bytes(IDENTITY));
    body.extend((0..=255u8).collect::<Vec<u8>>());
    body.extend([0u8, 255]);
    body.extend((0..=255u8).rev().collect::<Vec<u8>>());
    body
}

#[test]
fn lut8_reads_curves_clut_and_curves() {
    let body = lut8_one_channel_body();
    let p = lut8(&body).ok().expect("valid LUT8");
    assert_eq!(p.input_channels, 1);
    assert_eq!(p.output_channels, 1);
    let st = p.stages();
    assert_eq!(st.len(), 3);
    let input = curves_of(&st[0]);
    assert_eq!(input.len(), 1);
    assert_eq!(input[0].len(), 256);
    assert_eq!(input[0][0], 0);
    assert_eq!(input[0][1], 257);
    assert_eq!(input[0][255], 0xffff);
    match &st[1] {
        Stage::Clut(c) => {
            assert_eq!(c.inputs, 1);
            assert_eq!(c.outputs, 1);
            assert_eq!(c.grid, vec![2]);
            assert_eq!(c.table, vec![0, 0xffff]);
            assert!(!c.is_trilinear);
        }
        _ => panic!("expected the CLUT"),
    }
    let output = curves_of(&st[2]);
    assert_eq!(output[0][0], 0xffff);
    assert_eq!(output[0][255], 0);
}

#[test]
fn lut8_reader_ends_after_the_output_curves() {
    let mut body = lut8_one_channel_body();
    body.extend([9u8, 9, 9]);
    let mut r = MemReader::new(&body);
    assert!(read_lut8(&mut r, body.len() as u32).is_ok());
    assert_eq!(r.tell(), (body.len() - 3) as u64);
}

#[test]
fn lut8_matrix_stage_only_when_not_identity() {
    let mut body = vec![3u8, 3, 0, 0];
    body.extend(matrix_bytes([131072, 0, 0, 0, 65536, 0, 0, 0, 65536]));
    body.extend(vec![0u8; 256 * 6]);
    let p = lut8(&body).ok().expect("valid LUT8");
    let st = p.stages();
    assert_eq!(st.len(), 3);
    match &st[0] {
        Stage::Matrix { rows, cols, m, offset } => {
            assert_eq!((*rows, *cols), (3, 3));
            assert_eq!(m[0], 2.0f64.to_bits());
            assert_eq!(m[4], 1.0f64.to_bits());
            assert_eq!(m[1], 0.0f64.to_bits());
            assert!(offset.is_none());
        }
        _ => panic!("expected the matrix"),
    }
    // Off by one s15.16 unit in one entry still counts as the identity.
    let mut near = vec![3u8, 3, 0, 0];
    near.extend(matrix_bytes([65537, 0, 0, 0, 65536, 0, 0, 0, 65535]));
    near.extend(vec![0u8; 256 * 6]);
    assert_eq!(lut8(&near).ok().expect("valid LUT8").stages().len(), 2);
}

#[test]
fn lut8_header_errors() {
    let mut body = lut8_one_channel_body();
    body[2] = 1;
    assert!(matches!(lut8(&body), Err(Error::Corrupt("LUT8 CLUTpoints == 1"))));
    let mut body = lut8_one_channel_body();
    body[0] = 0;
    assert!(matches!(lut8(&body), Err(Error::Corrupt("LUT8 input channels out of range"))));
    let mut body = lut8_one_channel_body();
    body[1] = 17;
    assert!(matches!(lut8(&body), Err(Error::Corrupt("LUT8 output channels out of range"))));
    assert!(matches!(lut8(&[1, 1]), Err(Error::Truncated { needed: 1, got: 0 })));
    assert!(matches!(lut8(&[1, 1, 2, 0, 0, 0, 0, 0, 0]), Err(Error::Truncated { needed: 4, got: 1 })));
}

#[test]
fn lut8_truncated_tables() {
    let body = lut8_one_channel_body();
    assert!(matches!(lut8(&body[..body.len() - 1]), Err(Error::Truncated { needed: 1, got: 0 })));
    assert!(matches!(lut8(&body[..300]), Err(Error::Truncated { needed: 1, got: 0 })));
}

#[test]
fn lut8_without_clut_needs_matching_widths() {
    let mut body = vec![1u8, 2, 0, 0];
    body.extend(matrix_bytes(IDENTITY));
    body.extend(vec![0u8; 256 * 3]);
    assert!(matches!(
        lut8(&body),
        Err(Error::Unsupported("stage input width does not chain with the previous stage"))
    ));
}

fn lut16_one_channel_body() -> Vec<u8> {
    let mut body = vec![1u8, 1, 2, 0];
    body.extend(matrix_bytes(IDENTITY));
    body.extend([0u8, 2, 0, 3]);
    body.extend([0x00u8, 0x00, 0xff, 0xff]);
    body.extend([0x12u8, 0x34, 0xab, 0xcd]);
    body.extend([0x00u8, 0x01, 0x80, 0x00, 0xff, 0xfe]);
    body
}

#[test]
fn lut16_reads_tables_verbatim() {
    let body = lut16_one_channel_body();
    let mut r = MemReader::new(&body);
    let p = read_lut16(&mut r, body.len() as u32).ok().expect("valid LUT16");
    assert_eq!(r.tell(), body.len() as u64);
    let st = p.stages();
    assert_eq!(st.len(), 3);
    assert_eq!(curves_of(&st[0]), vec![vec![0, 0xffff]]);
    match &st[1] {
        Stage::Clut(c) => {
            assert_eq!(c.grid, vec![2]);
            assert_eq!(c.table, vec![0x1234, 0xabcd]);
        }
        _ => panic!("expected the CLUT"),
    }
    assert_eq!(curves_of(&st[2]), vec![vec![1, 0x8000, 0xfffe]]);
}

#[test]
fn lut16_empty_tables_and_clut_add_no_stage() {
    let mut body = vec![3u8, 3, 0, 0];
    body.extend(matrix_bytes(IDENTITY));
    body.extend([0u8, 0, 0, 0]);
    let p = lut16(&body).ok().expect("valid LUT16");
    assert_eq!(p.stages().len(), 0);
    assert_eq!(p.input_channels, 3);
}

#[test]
fn lut16_header_errors() {
    let mut body = lut16_one_channel_body();
    body[0] = 17;
    assert!(matches!(lut16(&body), Err(Error::Corrupt("LUT16 input channels out of range"))));
    let mut body = lut16_one_channel_body();
    body[1] = 0;
    assert!(matches!(lut16(&body), Err(Error::Corrupt("LUT16 output channels out of range"))));
    let mut body = lut16_one_channel_body();
    body[40] = 0x80;
    assert!(matches!(lut16(&body), Err(Error::Corrupt("LUT16 entry count > 0x7FFF"))));
    let mut body = lut16_one_channel_body();
    body[2] = 1;
    assert!(matches!(lut16(&body), Err(Error::Corrupt("LUT16 CLUTpoints == 1"))));
    let mut body = lut16_one_channel_body();
    body[41] = 1;
    assert!(matches!(lut16(&body), Err(Error::Corrupt("LUT16 table needs >= 2 entries"))));
    assert!(matches!(lut16(&body[..41]), Err(Error::Truncated { needed: 2, got: 1 })));
}

#[test]
fn lut16_truncated_clut() {
    let body = lut16_one_channel_body();
    assert!(matches!(lut16(&body[..51]), Err(Error::Truncated { needed: 2, got: 1 })));
}

#[test]
fn lut16_too_many_clut_inputs() {
    let mut body = vec![16u8, 1, 2, 0];
    body.extend(matrix_bytes(IDENTITY));
    body.extend([0u8, 0, 0, 0]);
    assert!(matches!(lut16(&body), Err(Error::Range)));
}

#[test]
fn fixed_to_f64_bits_matches_float_division() {
    for raw in [0i32, 1, -1, 65536, -65536, 131072, 0x7fff_ffff, i32::MIN, 12345, -98765, 32768] {
        assert_eq!(fixed_to_f64_bits(raw), (raw as f64 / 65536.0).to_bits(), "raw {raw}");
    }
}

#[test]
fn a2b_header_reads_channels_and_offsets() {
    let mut body = vec![3u8, 4, 0, 0];
    for off in [32u32, 0, 100, 200, 300] {
        body.extend(off.to_be_bytes());
    }
    let mut r = MemReader::new(&body);
    match read_a2b_b2a_header(&mut r) {
        Ok((i, o, offs)) => {
            assert_eq!((i, o), (3, 4));
            assert_eq!(offs, [32, 0, 100, 200, 300]);
        }
        Err(_) => panic!("valid header"),
    }
    assert_eq!(r.tell(), 24);

    let mut bad = body.clone();
    bad[0] = 16;
    let mut r = MemReader::new(&bad);
    assert!(matches!(read_a2b_b2a_header(&mut r), Err(Error::Corrupt("AtoB/BtoA input channels out of range"))));
    let mut bad = body.clone();
    bad[1] = 0;
    let mut r = MemReader::new(&bad);
    assert!(matches!(read_a2b_b2a_header(&mut r), Err(Error::Corrupt("AtoB/BtoA output channels out of range"))));
    let mut r = MemReader::new(&body[..10]);
    assert!(matches!(read_a2b_b2a_header(&mut r), Err(Error::Truncated { needed: 4, got: 2 })));
    let mut r = MemReader::new(&body[..3]);
    assert!(matches!(read_a2b_b2a_header(&mut r), Err(Error::Truncated { needed: 2, got: 1 })));
}

#[test]
fn matrix_with_offset_reads_twelve_values() {
    let mut body = vec![0xeeu8; 8];
    body.extend(matrix_bytes([65536, 0, 0, 0, 131072, 0, 0, 0, -65536]));
    body.extend(matrix_bytes([32768, 0, -32768, 0, 0, 0, 0, 0, 0])[..12].to_vec());
    let mut r = MemReader::new(&body);
    let mut p = Pipeline::new(3, 3);
    assert!(read_matrix_with_offset(&mut r, &mut p, 8).is_ok());
    assert_eq!(r.tell(), 56);
    match &p.stages()[0] {
        Stage::Matrix { rows, cols, m, offset } => {
            assert_eq!((*rows, *cols), (3, 3));
            assert_eq!(m[4], 2.0f64.to_bits());
            assert_eq!(m[8], (-1.0f64).to_bits());
            let o = offset.as_ref().expect("offset");
            assert_eq!(o, &vec![0.5f64.to_bits(), 0.0f64.to_bits(), (-0.5f64).to_bits()]);
        }
        _ => panic!("expected a matrix"),
    }
    let mut r = MemReader::new(&body);
    let mut p = Pipeline::new(3, 3);
    assert!(matches!(read_matrix_with_offset(&mut r, &mut p, 57), Err(Error::Range)));
    assert!(matches!(read_matrix_with_offset(&mut r, &mut p, 9), Err(Error::Truncated { needed: 4, got: 3 })));
    assert!(p.stages().is_empty());
}

fn clut_at_body(precision: u8, grid: &[u8], entries: &[u8]) -> Vec<u8> {
    let mut body = vec![0u8; 4];
    let mut points = [0u8; 16];
    points[..grid.len()].copy_from_slice(grid);
    body.extend(points);
    body.extend([precision, 0, 0, 0]);
    body.extend(entries);
    body
}

#[test]
fn clut_at_reads_a_granular_grid() {
    // Two inputs with 2 and 3 points, one output, 16-bit entries.
    let entries: Vec<u8> = (0..6u16).flat_map(|v| (v * 1000).to_be_bytes()).collect();
    let body = clut_at_body(2, &[2, 3], &entries);
    let mut r = MemReader::new(&body);
    let mut p = Pipeline::new(2, 1);
    assert!(read_clut_at(&mut r, &mut p, 4, 2, 1).is_ok());
    assert_eq!(r.tell(), body.len() as u64);
    match &p.stages()[0] {
        Stage::Clut(c) => {
            assert_eq!(c.grid, vec![2, 3]);
            assert_eq!(c.table, vec![0, 1000, 2000, 3000, 4000, 5000]);
            assert_eq!((c.inputs, c.outputs), (2, 1));
        }
        _ => panic!("expected the CLUT"),
    }
    // 8-bit entries are widened.
    let body = clut_at_body(1, &[2], &[0, 0x80, 0xff, 1]);
    let mut r = MemReader::new(&body);
    let mut p = Pipeline::new(1, 2);
    assert!(read_clut_at(&mut r, &mut p, 4, 1, 2).is_ok());
    match &p.stages()[0] {
        Stage::Clut(c) => assert_eq!(c.table, vec![0, 0x8080, 0xffff, 0x0101]),
        _ => panic!("expected the CLUT"),
    }
}

#[test]
fn clut_at_refusals() {
    let body = clut_at_body(2, &[2, 1], &[0; 8]);
    let mut p = Pipeline::new(2, 1);
    let mut r = MemReader::new(&body);
    assert!(matches!(read_clut_at(&mut r, &mut p, 4, 2, 1), Err(Error::Corrupt("AtoB/BtoA CLUT grid point == 1"))));
    let body = clut_at_body(3, &[2, 2], &[0; 8]);
    let mut r = MemReader::new(&body);
    assert!(matches!(read_clut_at(&mut r, &mut p, 4, 2, 1), Err(Error::Corrupt("AtoB/BtoA CLUT unknown precision"))));
    let body = clut_at_body(2, &[2, 0], &[0; 8]);
    let mut r = MemReader::new(&body);
    assert!(matches!(read_clut_at(&mut r, &mut p, 4, 2, 1), Err(Error::Corrupt("AtoB/BtoA CLUT table size invalid"))));
    let body = clut_at_body(2, &[2, 2], &[0; 7]);
    let mut r = MemReader::new(&body);
    assert!(matches!(read_clut_at(&mut r, &mut p, 4, 2, 1), Err(Error::Truncated { needed: 2, got: 1 })));
    let mut r = MemReader::new(&body[..12]);
    assert!(matches!(read_clut_at(&mut r, &mut p, 4, 2, 1), Err(Error::Truncated { needed: 1, got: 0 })));
    let mut r = MemReader::new(&body);
    assert!(matches!(read_clut_at(&mut r, &mut p, 1000, 2, 1), Err(Error::Range)));
    assert!(p.stages().is_empty());
}

fn lines_up(p: &Pipeline) -> bool {
    let mut w = p.input_channels;
    for s in p.stages() {
        if s.input_channels() != w {
            return false;
        }
        w = s.output_channels();
    }
    true
}

#[test]
fn lut_readers_give_lined_up_stages() {
    let p = lut8(&lut8_one_channel_body()).ok().expect("valid LUT8");
    assert!(lines_up(&p));
    let last = p.stages().last().expect("stages");
    assert_eq!(last.output_channels(), p.output_channels);
    let p = lut16(&lut16_one_channel_body()).ok().expect("valid LUT16");
    assert!(lines_up(&p));
    let mut body = vec![3u8, 3, 0, 0];
    body.extend(matrix_bytes([131072, 0, 0, 0, 65536, 0, 0, 0, 65536]));
    body.extend([0u8, 2, 0, 0]);
    body.extend(vec![0u8; 12]);
    let p = lut16(&body).ok().expect("valid LUT16");
    assert_eq!(p.stages().len(), 2);
    assert!(lines_up(&p));
}
