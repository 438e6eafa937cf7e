use tintbox::curve::build_tabulated_16;
use tintbox::error::Error;
use tintbox::header::{ColorSpace, DateTime, Header, ProfileClass, RenderingIntent};
use tintbox::link::intents::{default_icc_intents, icc_legs, Conversion, LegKind};
use tintbox::pipeline::{ClutStage, Pipeline, Stage};
use tintbox::sig::Signature;

fn header(class: ProfileClass, cs: ColorSpace, pcs: ColorSpace) -> Header {
    Header {
        size: 0,
        cmm: Signature::from_raw(0),
        version: 0x0400_0000,
        device_class: class,
        color_space: cs,
        pcs,
        date: DateTime { year: 2024, month: 1, day: 1, hours: 0, minutes: 0, seconds: 0 },
        platform: Signature::from_raw(0),
        flags: 0,
        manufacturer: Signature::from_raw(0),
        model: 0,
        attributes: 0,
        rendering_intent: RenderingIntent::Perceptual,
        illuminant: [63190, 65536, 54061],
        creator: Signature::from_raw(0),
        profile_id: [0; 16],
    }
}

fn curves(n: usize) -> Stage {
    Stage::ToneCurves((0..n).map(|_| build_tabulated_16(&[0, 0xffff])).collect())
}

fn bits(m: [f64; 9]) -> Vec<u64> {
    m.iter().map(|x| x.to_bits()).collect()
}

fn diag(a: f64, b: f64, c: f64) -> Stage {
    Stage::Matrix { rows: 3, cols: 3, m: bits([a, 0.0, 0.0, 0.0, b, 0.0, 0.0, 0.0, c]), offset: None }
}

/// The float product `m2 * m1`, or `None` when it is the identity.
fn merge(a: &[u64], b: &[u64]) -> Option<Vec<u64>> {
    let m1: Vec<f64> = a.iter().map(|x| f64::from_bits(*x)).collect();
    let m2: Vec<f64> = b.iter().map(|x| f64::from_bits(*x)).collect();
    let mut r = [0.0f64; 9];
    for i in 0..3 {
        for j in 0..3 {
            let mut s = 0.0;
            for k in 0..3 {
                s += m2[i * 3 + k] * m1[k * 3 + j];
            }
            r[i * 3 + j] = s;
        }
    }
    let ident = [1.0, 0.0, 0.0, 0.0, 1.0, 0.0, 0.0, 0.0, 1.0];
    if r.iter().zip(ident.iter()).all(|(a, b)| (b - a).abs() < 1e-5) {
        None
    } else {
        Some(bits(r))
    }
}

fn identity_conv() -> Result<Conversion, Error> {
    let one = 1.0f64.to_bits();
    Ok(([one, 0, 0, 0, one, 0, 0, 0, one], [0, 0, 0], true))
}

fn pipe(stages: Vec<Stage>) -> Pipeline {
    let mut p = Pipeline::new(3, 3);
    for s in stages {
        p.insert_stage_at_end(s).unwrap();
    }
    p
}

fn rgb() -> Header {
    header(ProfileClass::Display, ColorSpace::Rgb, ColorSpace::XYZ)
}

#[test]
fn an_empty_chain_is_a_range_error() {
    assert!(matches!(default_icc_intents(&[], &[], &[], merge), Err(Error::Range)));
    assert!(icc_legs(&[]).is_empty());
}

#[test]
fn legs_go_in_then_out() {
    let legs = icc_legs(&[rgb(), rgb()]);
    assert_eq!(legs, vec![LegKind::Input, LegKind::Output]);
    let link = header(ProfileClass::Link, ColorSpace::Rgb, ColorSpace::Cmyk);
    assert_eq!(icc_legs(&[link]), vec![LegKind::Link]);
}

#[test]
fn rgb_to_rgb_chains_and_simplifies() {
    let input = pipe(vec![curves(3), diag(2.0, 4.0, 5.0)]);
    let output = pipe(vec![diag(0.5, 0.25, 0.2), curves(3)]);
    let r = default_icc_intents(&[rgb(), rgb()], &[Ok(input), Ok(output)], &[identity_conv(), identity_conv()], merge)
        .unwrap();
    assert_eq!(r.stages().len(), 2);
    assert!(matches!(r.stages()[0], Stage::ToneCurves(_)));
    assert!(matches!(r.stages()[1], Stage::ToneCurves(_)));
    assert_eq!((r.input_channels, r.output_channels), (3, 3));
}

#[test]
fn a_junction_of_other_spaces_is_refused() {
    let link = header(ProfileClass::Link, ColorSpace::Cmyk, ColorSpace::Cmyk);
    let r = default_icc_intents(
        &[rgb(), link],
        &[Ok(pipe(vec![curves(3)])), Ok(pipe(vec![curves(3)]))],
        &[identity_conv(), identity_conv()],
        merge,
    );
    assert!(matches!(r, Err(Error::Corrupt("ColorSpace mismatch"))));
}

#[test]
fn a_failed_read_is_passed_on() {
    let r = default_icc_intents(
        &[rgb(), rgb()],
        &[Err(Error::Unsupported("no table")), Ok(pipe(vec![curves(3)]))],
        &[identity_conv(), identity_conv()],
        merge,
    );
    assert!(matches!(r, Err(Error::Unsupported("no table"))));
}

#[test]
fn the_output_width_must_match_the_last_space() {
    let table = ClutStage {
        inputs: 3,
        outputs: 4,
        grid: vec![2; 3],
        table: vec![0; 8 * 4],
        is_trilinear: false,
        implements_identity: false,
    };
    let mut output = Pipeline::new(3, 4);
    output.insert_stage_at_end(Stage::Clut(table)).unwrap();
    let r = default_icc_intents(
        &[rgb(), rgb()],
        &[Ok(pipe(vec![curves(3)])), Ok(output)],
        &[identity_conv(), identity_conv()],
        merge,
    );
    assert!(matches!(
        r,
        Err(Error::Corrupt("final pipeline output width does not match output color space channels"))
    ));
}
