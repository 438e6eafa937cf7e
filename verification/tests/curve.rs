use tintbox::curve::build_tabulated_16;

fn ramp(n: u32) -> Vec<u16> {
    (0..n).map(|i| ((i as u64 * 65535 + (n as u64 - 1) / 2) / (n as u64 - 1)) as u16).collect()
}

#[test]
fn tabulated_curve_keeps_its_table() {
    let c = build_tabulated_16(&[1, 2, 3]);
    assert_eq!(c.table16(), &[1, 2, 3]);
    assert_eq!(c.copy().table16(), &[1, 2, 3]);
    assert_eq!(build_tabulated_16(&[]).table16().len(), 0);
}

#[test]
fn linear_within_fifteen_of_the_ramp() {
    let mut t = ramp(256);
    assert!(build_tabulated_16(&t).is_linear());
    t[100] += 15;
    assert!(build_tabulated_16(&t).is_linear());
    t[100] += 1;
    assert!(!build_tabulated_16(&t).is_linear());
    assert!(build_tabulated_16(&[0, 0xffff]).is_linear());
    assert!(!build_tabulated_16(&[0xffff, 0]).is_linear());
    assert!(build_tabulated_16(&[]).is_linear());
}

#[test]
fn descending_compares_the_ends() {
    assert!(build_tabulated_16(&[5, 9, 1]).is_descending());
    assert!(!build_tabulated_16(&[1, 0, 1]).is_descending());
    assert!(!build_tabulated_16(&[7]).is_descending());
}

#[test]
fn degenerated_counts_pinned_entries() {
    // Exactly one zero and one pole: a plain ramp is never degenerated.
    assert!(!build_tabulated_16(&ramp(40)).is_degenerated());
    // 40 entries allow 2 zeros; 3 are too many.
    let mut t = ramp(40);
    t[1] = 0;
    assert!(!build_tabulated_16(&t).is_degenerated());
    t[2] = 0;
    assert!(build_tabulated_16(&t).is_degenerated());
    let mut t = ramp(40);
    t[37] = 0xffff;
    t[36] = 0xffff;
    assert!(build_tabulated_16(&t).is_degenerated());
    // A short table: any extra pinned entry is too many.
    assert!(build_tabulated_16(&[0, 0, 5]).is_degenerated());
    assert!(!build_tabulated_16(&[]).is_degenerated());
}

#[test]
fn monotonic_tolerates_a_ripple_of_two() {
    assert!(build_tabulated_16(&[0, 10, 8, 20]).is_monotonic());
    assert!(!build_tabulated_16(&[0, 10, 7, 20]).is_monotonic());
    assert!(build_tabulated_16(&[20, 8, 10, 0]).is_monotonic());
    assert!(!build_tabulated_16(&[20, 7, 10, 0]).is_monotonic());
    assert!(build_tabulated_16(&[5]).is_monotonic());
    assert!(build_tabulated_16(&[]).is_monotonic());
    // Flat tables run in the ascending direction.
    assert!(build_tabulated_16(&[4, 6, 4]).is_monotonic());
    assert!(!build_tabulated_16(&[4, 7, 4]).is_monotonic());
}
