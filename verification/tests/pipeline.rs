use tintbox::curve::build_tabulated_16;
use tintbox::error::Error;
use tintbox::pipeline::{ClutStage, Pipeline, Stage};

fn curves(n: usize) -> Stage {
    Stage::ToneCurves((0..n).map(|_| build_tabulated_16(&[0, 0xffff])).collect())
}

fn clut(inputs: usize, outputs: usize, is_trilinear: bool, implements_identity: bool) -> ClutStage {
    let nodes = 1usize << inputs;
    ClutStage {
        inputs,
        outputs,
        grid: vec![2; inputs],
        table: vec![0; nodes * outputs],
        is_trilinear,
        implements_identity,
    }
}


fn bits(m: [f64; 9]) -> Vec<u64> {
    m.iter().map(|x| x.to_bits()).collect()
}

fn matrix(m: [f64; 9]) -> Stage {
    Stage::Matrix { rows: 3, cols: 3, m: bits(m), offset: None }
}

/// The float product `m2 * m1`, or `None` when it is within 1e-5 of the identity.
fn merge(a: &[u64], b: &[u64]) -> Option<Vec<u64>> {
    let m1: Vec<f64> = a.iter().map(|x| f64::from_bits(*x)).collect();
    let m2: Vec<f64> = b.iter().map(|x| f64::from_bits(*x)).collect();
    let mut r = [0.0f64; 9];
    for i in 0..3 {
        for j in 0..3 {
            let mut s = 0.0;
            for k in 0..3 {
                s += m2[i * 3 + k] * m1[k * 3 + j];
            }
            r[i * 3 + j] = s;
        }
    }
    let ident = [1.0, 0.0, 0.0, 0.0, 1.0, 0.0, 0.0, 0.0, 1.0];
    let tol = 0.00001f32 as f64;
    if r.iter().zip(ident.iter()).all(|(a, b)| (b - a).abs() < tol) {
        None
    } else {
        Some(bits(r))
    }
}

#[test]
fn drops_matrix_pair_that_multiplies_to_identity() {
    let m = [2.0, 0.0, 0.0, 0.0, 4.0, 0.0, 0.0, 0.0, 5.0];
    let inv = [0.5, 0.0, 0.0, 0.0, 0.25, 0.0, 0.0, 0.0, 0.2];
    let mut p = Pipeline::new(3, 3);
    p.insert_stage_at_end(matrix(m)).unwrap();
    p.insert_stage_at_end(matrix(inv)).unwrap();
    p.pre_optimize(merge);
    assert!(p.stages().is_empty());
}

#[test]
fn merges_adjacent_matrices_into_product() {
    let m1 = [2.0, 0.0, 0.0, 0.0, 3.0, 0.0, 0.0, 0.0, 4.0];
    let m2 = [0.5, 0.0, 0.0, 0.0, 0.5, 0.0, 0.0, 0.0, 0.5];
    let mut p = Pipeline::new(3, 3);
    p.insert_stage_at_end(curves(3)).unwrap();
    p.insert_stage_at_end(matrix(m1)).unwrap();
    p.insert_stage_at_end(matrix(m2)).unwrap();
    p.insert_stage_at_end(curves(3)).unwrap();
    assert_eq!(p.stages().len(), 4);
    p.pre_optimize(merge);
    assert_eq!(p.stages().len(), 3);
    assert!(matches!(p.stages()[0], Stage::ToneCurves(_)));
    assert!(matches!(p.stages()[2], Stage::ToneCurves(_)));
    match &p.stages()[1] {
        Stage::Matrix { m, .. } => {
            assert_eq!(f64::from_bits(m[0]), 1.0);
            assert_eq!(f64::from_bits(m[4]), 1.5);
            assert_eq!(f64::from_bits(m[8]), 2.0);
        }
        _ => panic!("stage 1 must be the merged matrix"),
    }
}

#[test]
fn removes_identity_stages() {
    let mut p = Pipeline::new(3, 3);
    p.insert_stage_at_end(curves(3)).unwrap();
    p.insert_stage_at_end(Stage::Identity(3)).unwrap();
    p.insert_stage_at_end(curves(3)).unwrap();
    p.pre_optimize(merge);
    assert_eq!(p.stages().len(), 2);
    assert!(p.stages().iter().all(|s| !matches!(s, Stage::Identity(_))));
}

#[test]
fn removes_inverse_paired_pcs_conversions() {
    let mut p = Pipeline::new(3, 3);
    p.insert_stage_at_end(Stage::Xyz2Lab).unwrap();
    p.insert_stage_at_end(Stage::Lab2Xyz).unwrap();
    p.pre_optimize(merge);
    assert!(p.stages().is_empty());

    let mut p2 = Pipeline::new(3, 3);
    p2.insert_stage_at_end(Stage::Lab2Xyz).unwrap();
    p2.insert_stage_at_end(Stage::Xyz2Lab).unwrap();
    p2.pre_optimize(merge);
    assert!(p2.stages().is_empty());
}

#[test]
fn leaves_already_minimal_pipeline_unchanged() {
    let m = [2.0, 0.0, 0.0, 0.0, 3.0, 0.0, 0.0, 0.0, 4.0];
    let mut p = Pipeline::new(3, 3);
    p.insert_stage_at_end(curves(3)).unwrap();
    p.insert_stage_at_end(matrix(m)).unwrap();
    p.insert_stage_at_end(curves(3)).unwrap();
    p.pre_optimize(merge);
    assert_eq!(p.stages().len(), 3);
    match &p.stages()[1] {
        Stage::Matrix { m: got, .. } => assert_eq!(got, &bits(m)),
        _ => panic!("matrix expected"),
    }
}

#[test]
fn nested_pairs_cancel_over_passes() {
    let mut p = Pipeline::new(3, 3);
    for s in [Stage::Xyz2Lab, Stage::Xyz2Lab, Stage::Lab2Xyz, Stage::Lab2Xyz] {
        p.insert_stage_at_end(s).unwrap();
    }
    p.pre_optimize(merge);
    assert!(p.stages().is_empty());
}

#[test]
fn identity_clut_is_dropped() {
    let mut p = Pipeline::new(3, 3);
    let c = clut(3, 3, false, true);
    p.insert_stage_at_end(Stage::Clut(c)).unwrap();
    p.pre_optimize(merge);
    assert!(p.stages().is_empty());
}

#[test]
fn offset_matrix_blocks_merging() {
    let m = [2.0, 0.0, 0.0, 0.0, 3.0, 0.0, 0.0, 0.0, 4.0];
    let mut p = Pipeline::new(3, 3);
    p.insert_stage_at_end(Stage::Matrix { rows: 3, cols: 3, m: bits(m), offset: Some(vec![0, 0, 0]) }).unwrap();
    p.insert_stage_at_end(matrix(m)).unwrap();
    p.insert_stage_at_end(matrix(m)).unwrap();
    p.pre_optimize(merge);
    assert_eq!(p.stages().len(), 3);
}

#[test]
fn insert_checks_width_and_chain() {
    let mut p = Pipeline::new(3, 4);
    assert!(matches!(p.insert_stage_at_end(Stage::Identity(4)), Err(Error::Unsupported(_))));
    assert!(matches!(p.insert_stage_at_end(Stage::Identity(200)), Err(Error::Unsupported(_))));
    p.insert_stage_at_end(Stage::Identity(3)).unwrap();
    let c = clut(3, 4, false, false);
    p.insert_stage_at_end(Stage::Clut(c)).unwrap();
    assert_eq!(p.stages().len(), 2);
}

#[test]
fn prepend_sets_widths() {
    let mut p = Pipeline::new(3, 3);
    p.prepend_stage(Stage::NamedColor(3)).unwrap();
    assert_eq!(p.input_channels, 1);
    assert_eq!(p.output_channels, 3);
    assert!(matches!(p.prepend_stage(Stage::Identity(4)), Err(Error::Corrupt(_))));
    p.prepend_stage(Stage::Identity(1)).unwrap();
    assert_eq!(p.stages().len(), 2);
}

#[test]
fn concat_appends_and_checks_junction() {
    let mut a = Pipeline::new(3, 3);
    a.insert_stage_at_end(curves(3)).unwrap();
    let mut b = Pipeline::new(3, 4);
    let c = clut(3, 4, false, false);
    b.insert_stage_at_end(Stage::Clut(c)).unwrap();
    a.concat(&b).unwrap();
    assert_eq!(a.stages().len(), 2);
    assert_eq!(a.output_channels, 4);
    let mut d = Pipeline::new(4, 4);
    d.insert_stage_at_end(curves(4)).unwrap();
    let mut e = Pipeline::new(3, 3);
    e.insert_stage_at_end(Stage::Xyz2Lab).unwrap();
    assert!(matches!(d.concat(&e), Err(Error::Corrupt(_))));
    let mut empty = Pipeline::new(1, 1);
    empty.concat(&Pipeline::new(5, 6)).unwrap();
    assert_eq!((empty.input_channels, empty.output_channels), (5, 6));
}

#[test]
fn trilinear_hint_is_set_on_tables() {
    let mut p = Pipeline::new(3, 3);
    let c = clut(3, 3, false, false);
    p.insert_stage_at_end(Stage::Clut(c)).unwrap();
    p.insert_stage_at_end(curves(3)).unwrap();
    p.change_interpolation_to_trilinear();
    match &p.stages()[0] {
        Stage::Clut(c) => assert!(c.is_trilinear),
        _ => panic!("table expected"),
    }
}

/// Whether each stage reads what the one before it writes, the first
/// reading the pipeline's input width.
fn lines_up(p: &Pipeline) -> bool {
    let mut w = p.input_channels;
    for s in p.stages() {
        if s.input_channels() != w {
            return false;
        }
        w = s.output_channels();
    }
    true
}

#[test]
fn stages_stay_lined_up_through_edits_and_pre_optimize() {
    let mut p = Pipeline::new(3, 3);
    assert!(p.insert_stage_at_end(curves(3)).is_ok());
    assert!(p.insert_stage_at_end(Stage::Identity(3)).is_ok());
    assert!(p.insert_stage_at_end(Stage::Xyz2Lab).is_ok());
    assert!(p.insert_stage_at_end(Stage::Lab2Xyz).is_ok());
    assert!(p.insert_stage_at_end(matrix([2.0, 0.0, 0.0, 0.0, 1.0, 0.0, 0.0, 0.0, 1.0])).is_ok());
    assert!(p.insert_stage_at_end(matrix([0.5, 0.0, 0.0, 0.0, 1.0, 0.0, 0.0, 0.0, 1.0])).is_ok());
    assert!(p.insert_stage_at_end(Stage::Clut(clut(3, 4, false, false))).is_ok());
    // A refused stage leaves the chain as it was.
    assert!(p.insert_stage_at_end(curves(3)).is_err());
    assert!(lines_up(&p));
    assert!(p.prepend_stage(curves(3)).is_ok());
    assert!(lines_up(&p));
    let mut q = Pipeline::new(4, 4);
    assert!(q.insert_stage_at_end(curves(4)).is_ok());
    assert!(p.concat(&q).is_ok());
    assert!(lines_up(&p));
    p.pre_optimize(merge);
    assert!(lines_up(&p));
    assert_eq!(p.stages().len(), 4);
}

#[test]
fn concat_of_an_empty_pipeline_keeps_the_last_stage_width() {
    let mut a = Pipeline::new(3, 3);
    a.insert_stage_at_end(curves(3)).unwrap();
    a.concat(&Pipeline::new(7, 8)).unwrap();
    assert_eq!(a.stages().len(), 1);
    assert_eq!((a.input_channels, a.output_channels), (3, 3));
}
