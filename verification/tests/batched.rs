use tintbox::batched::{is_quant_boundary, split_u16_runs, Segment, U16Kind};

const C: Option<U16Kind> = Some(U16Kind::Curves);
const L: Option<U16Kind> = Some(U16Kind::Clut);
const N: Option<U16Kind> = None;

#[test]
fn quant_boundaries() {
    let k = [C, N, L, C];
    assert!(is_quant_boundary(&k, 0));
    assert!(is_quant_boundary(&k, 4));
    assert!(!is_quant_boundary(&k, 1));
    assert!(is_quant_boundary(&k, 2));
    assert!(is_quant_boundary(&k, 3));
}

#[test]
fn whole_curve_clut_curve_chain_is_one_run() {
    let (plan, any, leading) = split_u16_runs(&[C, L, C], &[false, false, false], true);
    assert_eq!(plan, vec![Segment::Run { start: 0, end: 2 }]);
    assert!(any);
    assert!(leading);
}

#[test]
fn tabulated_curve_after_matrix_joins_the_clut_run() {
    // [Matrix, tabulated Curves, CLUT, Curves]
    let (plan, any, leading) = split_u16_runs(&[N, C, L, C], &[false, true, false, false], true);
    assert_eq!(plan, vec![Segment::Keep(0), Segment::Run { start: 1, end: 3 }]);
    assert!(any);
    assert!(!leading);
}

#[test]
fn segmented_curve_after_matrix_is_not_absorbed() {
    let (plan, any, _) = split_u16_runs(&[N, C, L, C], &[false, false, false, false], true);
    assert_eq!(plan, vec![Segment::Keep(0), Segment::Keep(1), Segment::Run { start: 2, end: 3 }]);
    assert!(any);
}

#[test]
fn float_clut_does_not_form_a_run_across_free_boundaries() {
    // [Curves, float CLUT, Curves]: the inner boundaries carry free floats.
    let (plan, any, leading) = split_u16_runs(&[C, N, C], &[false, false, false], true);
    assert_eq!(plan, vec![Segment::Keep(0), Segment::Keep(1), Segment::Keep(2)]);
    assert!(!any);
    assert!(!leading);
}

#[test]
fn no_runs_without_the_roundtrip_identity() {
    let (plan, any, leading) = split_u16_runs(&[C, L, C], &[true, false, true], false);
    assert_eq!(plan, vec![Segment::Keep(0), Segment::Keep(1), Segment::Keep(2)]);
    assert!(!any);
    assert!(!leading);
}

#[test]
fn curves_run_stops_before_a_free_boundary() {
    // Two curve sets in a row: boundary 1 is free, so each stands alone
    // unless it can start itself; the first starts at the entry but its right
    // edge is free, so it is kept.
    let (plan, any, _) = split_u16_runs(&[C, C], &[false, false], true);
    assert_eq!(plan, vec![Segment::Keep(0), Segment::Keep(1)]);
    assert!(!any);
    let (plan, _, _) = split_u16_runs(&[L, L, N], &[false, false, false], true);
    assert_eq!(plan, vec![Segment::Run { start: 0, end: 1 }, Segment::Keep(2)]);
    let (plan, _, _) = split_u16_runs(&[], &[], true);
    assert!(plan.is_empty());
}
