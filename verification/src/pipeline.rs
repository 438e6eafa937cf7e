//! Pipelines: ordered chains of stages whose channel widths line up, the
//! ways to build them, and the structural simplification run before any
//! optimization. Stage payloads that are floating-point numbers (matrix
//! coefficients) are held as their IEEE-754 bit patterns; the arithmetic on
//! them is supplied by the caller.

use vstd::prelude::*;
use crate::curve::ToneCurve;
use crate::error::Error;

verus! {

/// The widest a stage may be on either side.
pub const MAX_STAGE_CHANNELS: usize = 128;

/// A color lookup table stage: its grid (points per input), its output
/// count, its 16-bit table (output channels innermost, last input
/// fastest) and its interpolation hints.
pub struct ClutStage {
    pub inputs: usize,
    pub outputs: usize,
    pub grid: Vec<u32>,
    pub table: Vec<u16>,
    /// Interpolate trilinearly rather than tetrahedrally.
    pub is_trilinear: bool,
    /// Built as an identity table.
    pub implements_identity: bool,
}

/// A table stage as plain values.
pub struct ClutV {
    pub inputs: nat,
    pub outputs: nat,
    pub grid: Seq<u32>,
    pub table: Seq<u16>,
    pub is_trilinear: bool,
    pub implements_identity: bool,
}

impl View for ClutStage {
    type V = ClutV;

    open spec fn view(&self) -> ClutV {
        ClutV {
            inputs: self.inputs as nat,
            outputs: self.outputs as nat,
            grid: self.grid@,
            table: self.table@,
            is_trilinear: self.is_trilinear,
            implements_identity: self.implements_identity,
        }
    }
}

/// One pipeline stage.
pub enum Stage {
    /// Passes `n` channels through.
    Identity(usize),
    /// One tone curve per channel, each by its 16-bit table.
    ToneCurves(Vec<ToneCurve>),
    /// A `rows` x `cols` matrix (bit patterns of `f64`, row-major), with an
    /// optional offset per output.
    Matrix { rows: usize, cols: usize, m: Vec<u64>, offset: Option<Vec<u64>> },
    Clut(ClutStage),
    Xyz2Lab,
    Lab2Xyz,
    LabV2ToV4,
    LabV4ToV2,
    /// A named-color index to `outputs` channels.
    NamedColor(usize),
}

/// A stage as plain values.
pub enum StageV {
    Identity(nat),
    ToneCurves(Seq<Seq<u16>>),
    Matrix { rows: nat, cols: nat, m: Seq<u64>, offset: Option<Seq<u64>> },
    Clut(ClutV),
    Xyz2Lab,
    Lab2Xyz,
    LabV2ToV4,
    LabV4ToV2,
    NamedColor(nat),
}

/// The tables of a set of curves, as plain values.
pub open spec fn curves_view(v: Seq<ToneCurve>) -> Seq<Seq<u16>> {
    v.map_values(|c: ToneCurve| c@)
}

impl View for Stage {
    type V = StageV;

    open spec fn view(&self) -> StageV {
        match self {
            Stage::Identity(n) => StageV::Identity(*n as nat),
            Stage::ToneCurves(c) => StageV::ToneCurves(curves_view(c@)),
            Stage::Matrix { rows, cols, m, offset } => StageV::Matrix {
                rows: *rows as nat,
                cols: *cols as nat,
                m: m@,
                offset: match offset {
                    Some(o) => Some(o@),
                    None => None,
                },
            },
            Stage::Clut(c) => StageV::Clut(c@),
            Stage::Xyz2Lab => StageV::Xyz2Lab,
            Stage::Lab2Xyz => StageV::Lab2Xyz,
            Stage::LabV2ToV4 => StageV::LabV2ToV4,
            Stage::LabV4ToV2 => StageV::LabV4ToV2,
            Stage::NamedColor(n) => StageV::NamedColor(*n as nat),
        }
    }
}

/// The channels a stage reads.
pub open spec fn st_in(s: StageV) -> nat {
    match s {
        StageV::Identity(n) => n,
        StageV::ToneCurves(c) => c.len(),
        StageV::Matrix { cols, .. } => cols,
        StageV::Clut(c) => c.inputs,
        StageV::NamedColor(_) => 1,
        _ => 3,
    }
}

/// The channels a stage writes.
pub open spec fn st_out(s: StageV) -> nat {
    match s {
        StageV::Identity(n) => n,
        StageV::ToneCurves(c) => c.len(),
        StageV::Matrix { rows, .. } => rows,
        StageV::Clut(c) => c.outputs,
        StageV::NamedColor(n) => n,
        _ => 3,
    }
}

pub open spec fn stages_view(v: Seq<Stage>) -> Seq<StageV> {
    v.map_values(|s: Stage| s@)
}

fn copy_u16s(v: &Vec<u16>) -> (r: Vec<u16>)
    ensures
        r@ == v@,
{
    let mut r: Vec<u16> = Vec::new();
    let mut i: usize = 0;
    while i < v.len()
        invariant
            i <= v@.len(),
            r@ == v@.subrange(0, i as int),
        decreases v.len() - i,
    {
        r.push(v[i]);
        i += 1;
        assert(r@ =~= v@.subrange(0, i as int));
    }
    assert(v@.subrange(0, v@.len() as int) =~= v@);
    r
}

fn copy_u32s(v: &Vec<u32>) -> (r: Vec<u32>)
    ensures
        r@ == v@,
{
    let mut r: Vec<u32> = Vec::new();
    let mut i: usize = 0;
    while i < v.len()
        invariant
            i <= v@.len(),
            r@ == v@.subrange(0, i as int),
        decreases v.len() - i,
    {
        r.push(v[i]);
        i += 1;
        assert(r@ =~= v@.subrange(0, i as int));
    }
    assert(v@.subrange(0, v@.len() as int) =~= v@);
    r
}

fn copy_curves(v: &Vec<ToneCurve>) -> (r: Vec<ToneCurve>)
    ensures
        curves_view(r@) == curves_view(v@),
{
    let mut r: Vec<ToneCurve> = Vec::new();
    let mut i: usize = 0;
    while i < v.len()
        invariant
            i <= v@.len(),
            r@.len() == i,
            forall|k: int| 0 <= k < i ==> #[trigger] r@[k]@ == v@[k]@,
        decreases v.len() - i,
    {
        r.push(v[i].copy());
        i += 1;
    }
    assert(curves_view(r@) =~= curves_view(v@));
    r
}

impl ClutStage {
    /// A copy of the table stage, with the trilinear hint as given.
    pub fn copy_with_trilinear(&self, is_trilinear: bool) -> (r: ClutStage)
        ensures
            r@ == (ClutV { is_trilinear, ..self@ }),
    {
        ClutStage {
            inputs: self.inputs,
            outputs: self.outputs,
            grid: copy_u32s(&self.grid),
            table: copy_u16s(&self.table),
            is_trilinear,
            implements_identity: self.implements_identity,
        }
    }
}

/// The stage list after appending `s` to a pipeline whose stages are `sv`
/// and whose input width is `ic`, or why the stage is refused: a side wider
/// than the limit, or an input that does not chain with the previous output.
pub open spec fn append_stage(sv: Seq<StageV>, ic: nat, s: StageV) -> Result<Seq<StageV>, Error> {
    let expected = if sv.len() == 0 {
        ic
    } else {
        st_out(sv.last())
    };
    if st_in(s) > MAX_STAGE_CHANNELS || st_out(s) > MAX_STAGE_CHANNELS {
        Err(Error::Unsupported("stage exceeds MAX_STAGE_CHANNELS"))
    } else if st_in(s) != expected {
        Err(Error::Unsupported("stage input width does not chain with the previous stage"))
    } else {
        Ok(sv.push(s))
    }
}

/// Whether the stages line up: the first reads `ic` channels and each
/// other one reads what the stage before it writes.
pub open spec fn chained(ic: nat, sv: Seq<StageV>) -> bool {
    forall|k: int|
        0 <= k < sv.len() ==> #[trigger] st_in(sv[k]) == (if k == 0 {
            ic
        } else {
            st_out(sv[k - 1])
        })
}

/// Appending a stage to stages that line up leaves stages that line up.
pub proof fn lemma_append_keeps_chain(sv: Seq<StageV>, ic: nat, s: StageV)
    requires
        chained(ic, sv),
    ensures
        append_stage(sv, ic, s) matches Ok(v) ==> chained(ic, v),
{
    if let Ok(v) = append_stage(sv, ic, s) {
        assert forall|k: int| 0 <= k < v.len() implies #[trigger] st_in(v[k]) == (if k == 0 {
            ic
        } else {
            st_out(v[k - 1])
        }) by {
            if k < sv.len() {
                assert(v[k] == sv[k]);
                if k > 0 {
                    assert(v[k - 1] == sv[k - 1]);
                }
            } else {
                assert(v[k] == s);
                if k > 0 {
                    assert(v[k - 1] == sv.last());
                }
            }
        }
    }
}

/// Prepending a stage whose output feeds the first stage to stages that
/// line up leaves stages that line up from the new stage's input.
pub proof fn lemma_prepend_keeps_chain(sv: Seq<StageV>, ic: nat, s: StageV)
    requires
        chained(ic, sv),
        sv.len() > 0 ==> st_in(sv[0]) == st_out(s),
    ensures
        chained(st_in(s), seq![s] + sv),
{
    let v = seq![s] + sv;
    assert forall|k: int| 0 <= k < v.len() implies #[trigger] st_in(v[k]) == (if k == 0 {
        st_in(s)
    } else {
        st_out(v[k - 1])
    }) by {
        if k > 0 {
            assert(v[k] == sv[k - 1]);
            if k > 1 {
                assert(v[k - 1] == sv[k - 2]);
            }
        }
    }
}

proof fn lemma_concat_chain_from(ic: nat, a: Seq<StageV>, e0: nat, b: Seq<StageV>, k: int)
    requires
        e0 == (if a.len() == 0 {
            ic
        } else {
            st_out(a.last())
        }),
        0 <= k <= b.len(),
        first_break(if k == 0 {
            e0
        } else {
            st_out(b[k - 1])
        }, b, k) is None,
        chained(ic, a + b.subrange(0, k)),
    ensures
        chained(ic, a + b),
    decreases b.len() - k,
{
    if k == b.len() {
        assert(b.subrange(0, k) =~= b);
    } else {
        let c = a + b.subrange(0, k);
        let c2 = a + b.subrange(0, k + 1);
        assert forall|j: int| 0 <= j < c2.len() implies #[trigger] st_in(c2[j]) == (if j == 0 {
            ic
        } else {
            st_out(c2[j - 1])
        }) by {
            if j < c.len() {
                assert(c2[j] == c[j]);
                if j > 0 {
                    assert(c2[j - 1] == c[j - 1]);
                }
            } else {
                assert(c2[j] == b[k]);
                if j > 0 {
                    if k > 0 {
                        assert(c2[j - 1] == b[k - 1]);
                    } else {
                        assert(c2[j - 1] == a.last());
                    }
                }
            }
        }
        lemma_concat_chain_from(ic, a, e0, b, k + 1);
    }
}

/// Stages that chain on from where stages that line up end, with no stage
/// too wide or out of line, put after them leave stages that line up.
pub proof fn lemma_concat_keeps_chain(ic: nat, a: Seq<StageV>, b: Seq<StageV>)
    requires
        chained(ic, a),
        first_break(if a.len() == 0 {
            ic
        } else {
            st_out(a.last())
        }, b, 0) is None,
    ensures
        chained(ic, a + b),
{
    assert(a + b.subrange(0, 0) =~= a);
    lemma_concat_chain_from(ic, a, if a.len() == 0 {
        ic
    } else {
        st_out(a.last())
    }, b, 0);
}

/// Append the stages `ss` one after another: the stages that result, and
/// the error of the first append that was refused (the stages appended
/// before it stay).
pub open spec fn append_all(sv: Seq<StageV>, ic: nat, ss: Seq<StageV>) -> (Seq<StageV>, Option<Error>)
    decreases ss.len(),
{
    if ss.len() == 0 {
        (sv, None)
    } else {
        match append_stage(sv, ic, ss[0]) {
            Ok(v) => append_all(v, ic, ss.drop_first()),
            Err(e) => (sv, Some(e)),
        }
    }
}

/// Appending stages one after another to stages that line up leaves
/// stages that line up, however far the appending got.
pub proof fn lemma_append_all_keeps_chain(sv: Seq<StageV>, ic: nat, ss: Seq<StageV>)
    requires
        chained(ic, sv),
    ensures
        chained(ic, append_all(sv, ic, ss).0),
    decreases ss.len(),
{
    if ss.len() > 0 {
        lemma_append_keeps_chain(sv, ic, ss[0]);
        if let Ok(v) = append_stage(sv, ic, ss[0]) {
            lemma_append_all_keeps_chain(v, ic, ss.drop_first());
        }
    }
}

impl Stage {
    pub fn input_channels(&self) -> (n: usize)
        ensures
            n == st_in(self@),
    {
        match self {
            Stage::Identity(n) => *n,
            Stage::ToneCurves(c) => c.len(),
            Stage::Matrix { cols, .. } => *cols,
            Stage::Clut(c) => c.inputs,
            Stage::NamedColor(_) => 1,
            _ => 3,
        }
    }

    pub fn output_channels(&self) -> (n: usize)
        ensures
            n == st_out(self@),
    {
        match self {
            Stage::Identity(n) => *n,
            Stage::ToneCurves(c) => c.len(),
            Stage::Matrix { rows, .. } => *rows,
            Stage::Clut(c) => c.outputs,
            Stage::NamedColor(n) => *n,
            _ => 3,
        }
    }

    /// A copy of the stage.
    pub fn dup(&self) -> (r: Stage)
        ensures
            r@ == self@,
    {
        match self {
            Stage::Identity(n) => Stage::Identity(*n),
            Stage::ToneCurves(c) => Stage::ToneCurves(copy_curves(c)),
            Stage::Matrix { rows, cols, m, offset } => Stage::Matrix {
                rows: *rows,
                cols: *cols,
                m: copy_words(m),
                offset: match offset {
                    Some(o) => Some(copy_words(o)),
                    None => None,
                },
            },
            Stage::Clut(c) => Stage::Clut(c.copy_with_trilinear(c.is_trilinear)),
            Stage::Xyz2Lab => Stage::Xyz2Lab,
            Stage::Lab2Xyz => Stage::Lab2Xyz,
            Stage::LabV2ToV4 => Stage::LabV2ToV4,
            Stage::LabV4ToV2 => Stage::LabV4ToV2,
            Stage::NamedColor(n) => Stage::NamedColor(*n),
        }
    }
}

fn copy_words(v: &Vec<u64>) -> (r: Vec<u64>)
    ensures
        r@ == v@,
{
    let mut r: Vec<u64> = Vec::new();
    let mut i: usize = 0;
    while i < v.len()
        invariant
            i <= v@.len(),
            r@ == v@.subrange(0, i as int),
        decreases v.len() - i,
    {
        r.push(v[i]);
        i += 1;
        assert(r@ =~= v@.subrange(0, i as int));
    }
    assert(v@.subrange(0, v@.len() as int) =~= v@);
    r
}

/// An ordered chain of stages from `input_channels` to `output_channels`.
pub struct Pipeline {
    pub input_channels: usize,
    pub output_channels: usize,
    stages: Vec<Stage>,
}

impl Pipeline {
    /// The stages, as plain values.
    pub closed spec fn sv(&self) -> Seq<StageV> {
        stages_view(self.stages@)
    }

    /// The pipeline's input width.
    pub closed spec fn ic(&self) -> usize {
        self.input_channels
    }

    /// The pipeline's output width.
    pub closed spec fn oc(&self) -> usize {
        self.output_channels
    }

    /// The pipeline's output width.
    pub fn output_width(&self) -> (n: usize)
        ensures
            n == self.oc(),
    {
        self.output_channels
    }

    /// A pipeline with no stages.
    pub fn new(input_channels: usize, output_channels: usize) -> (p: Pipeline)
        ensures
            p.ic() == input_channels,
            p.oc() == output_channels,
            p.sv() == Seq::<StageV>::empty(),
    {
        let p = Pipeline { input_channels, output_channels, stages: Vec::new() };
        assert(p.sv() =~= Seq::<StageV>::empty());
        p
    }

    /// The stages, in evaluation order.
    pub fn stages(&self) -> (s: &[Stage])
        ensures
            stages_view(s@) == self.sv(),
    {
        self.stages.as_slice()
    }

    /// Append a stage: a stage wider than the limit, or
    /// one whose input does not match the previous output (or the pipeline's
    /// input when empty), is refused.
    pub fn insert_stage_at_end(&mut self, s: Stage) -> (r: Result<(), Error>)
        ensures
            final(self).ic() == old(self).ic(),
            final(self).oc() == old(self).oc(),
            ({
                let expected = if old(self).sv().len() == 0 {
                    old(self).ic() as nat
                } else {
                    st_out(old(self).sv().last())
                };
                if st_in(s@) > MAX_STAGE_CHANNELS || st_out(s@) > MAX_STAGE_CHANNELS {
                    r == Err::<(), Error>(Error::Unsupported("stage exceeds MAX_STAGE_CHANNELS"))
                        && final(self).sv() == old(self).sv()
                } else if st_in(s@) != expected {
                    r == Err::<(), Error>(
                        Error::Unsupported(
                            "stage input width does not chain with the previous stage",
                        ),
                    ) && final(self).sv() == old(self).sv()
                } else {
                    r is Ok && final(self).sv() == old(self).sv().push(s@)
                }
            }),
            match append_stage(old(self).sv(), old(self).ic() as nat, s@) {
                Ok(v) => r is Ok && final(self).sv() == v,
                Err(e) => r == Err::<(), Error>(e) && final(self).sv() == old(self).sv(),
            },
    {
        if s.input_channels() > MAX_STAGE_CHANNELS || s.output_channels() > MAX_STAGE_CHANNELS {
            return Err(Error::Unsupported("stage exceeds MAX_STAGE_CHANNELS"));
        }
        let n = self.stages.len();
        let expected_in = if n == 0 {
            self.input_channels
        } else {
            self.stages[n - 1].output_channels()
        };
        if s.input_channels() != expected_in {
            return Err(Error::Unsupported("stage input width does not chain with the previous stage"));
        }
        self.stages.push(s);
        assert(self.sv() =~= old(self).sv().push(s@));
        Ok(())
    }

    /// Prepend a stage: the pipeline's input becomes
    /// the new stage's, and when the pipeline was empty its output too; a
    /// stage whose output does not feed the old first stage is refused.
    pub fn prepend_stage(&mut self, s: Stage) -> (r: Result<(), Error>)
        ensures
            if st_in(s@) > MAX_STAGE_CHANNELS || st_out(s@) > MAX_STAGE_CHANNELS {
                r == Err::<(), Error>(Error::Unsupported("stage exceeds MAX_STAGE_CHANNELS"))
                    && *final(self) == *old(self)
            } else if old(self).sv().len() > 0 && st_in(old(self).sv()[0]) != st_out(s@) {
                r == Err::<(), Error>(
                    Error::Corrupt("prepended stage output width does not chain with the first stage"),
                ) && *final(self) == *old(self)
            } else {
                &&& r is Ok
                &&& final(self).sv() == seq![s@] + old(self).sv()
                &&& final(self).ic() == st_in(s@)
                &&& final(self).oc() == if old(self).sv().len() == 0 {
                    st_out(s@) as usize
                } else {
                    old(self).oc()
                }
            },
    {
        if s.input_channels() > MAX_STAGE_CHANNELS || s.output_channels() > MAX_STAGE_CHANNELS {
            return Err(Error::Unsupported("stage exceeds MAX_STAGE_CHANNELS"));
        }
        if self.stages.len() > 0 {
            if self.stages[0].input_channels() != s.output_channels() {
                return Err(Error::Corrupt("prepended stage output width does not chain with the first stage"));
            }
        }
        self.input_channels = s.input_channels();
        if self.stages.len() == 0 {
            self.output_channels = s.output_channels();
        }
        let ghost sv = s@;
        self.stages.insert(0, s);
        assert(self.sv() =~= seq![sv] + old(self).sv());
        Ok(())
    }
}


/// The first stage at or after `k` that is too wide or does not chain from
/// width `e`, with the error appending it gives.
pub open spec fn first_break(e: nat, t: Seq<StageV>, k: int) -> Option<(int, Error)>
    decreases t.len() - k,
{
    if k < 0 || k >= t.len() {
        None
    } else if st_in(t[k]) > MAX_STAGE_CHANNELS || st_out(t[k]) > MAX_STAGE_CHANNELS {
        Some((k, Error::Unsupported("stage exceeds MAX_STAGE_CHANNELS")))
    } else if st_in(t[k]) != e {
        Some((k, Error::Corrupt("pipeline output width does not chain with concatenated pipeline")))
    } else {
        first_break(st_out(t[k]), t, k + 1)
    }
}

/// A stage that the simplification before optimizing drops as an identity.
pub open spec fn is_identity_stage(s: StageV) -> bool {
    s is Identity || (s matches StageV::Clut(c) && c.implements_identity)
}

/// The PCS conversion a stage performs, as a small number (0 for none).
pub open spec fn pcs_kind(s: StageV) -> int {
    match s {
        StageV::Xyz2Lab => 1,
        StageV::Lab2Xyz => 2,
        StageV::LabV2ToV4 => 3,
        StageV::LabV4ToV2 => 4,
        _ => 0,
    }
}

/// The stages left after removing, scanning from `i`, each adjacent pair
/// `op1, op2`; after a removal the scan resumes at the same place.
pub open spec fn remove_pairs(s: Seq<StageV>, op1: int, op2: int, i: int) -> Seq<StageV>
    decreases s.len(), s.len() - i,
{
    if i < 0 || i + 1 >= s.len() {
        s
    } else if pcs_kind(s[i]) == op1 && pcs_kind(s[i + 1]) == op2 {
        remove_pairs(s.subrange(0, i) + s.subrange(i + 2, s.len() as int), op1, op2, i)
    } else {
        remove_pairs(s, op1, op2, i + 1)
    }
}

/// The stages that are not matrices, in order.
pub open spec fn non_matrix(s: Seq<StageV>) -> Seq<StageV>
    decreases s.len(),
{
    if s.len() == 0 {
        s
    } else if s.last() is Matrix {
        non_matrix(s.drop_last())
    } else {
        non_matrix(s.drop_last()).push(s.last())
    }
}

/// The stages that are not identities, in order.
pub open spec fn drop_identities(s: Seq<StageV>) -> Seq<StageV>
    decreases s.len(),
{
    if s.len() == 0 {
        s
    } else if is_identity_stage(s.last()) {
        drop_identities(s.drop_last())
    } else {
        drop_identities(s.drop_last()).push(s.last())
    }
}

/// No stage is an identity.
pub open spec fn no_identities(s: Seq<StageV>) -> bool {
    forall|k: int| 0 <= k < s.len() ==> !is_identity_stage(#[trigger] s[k])
}

/// No adjacent `op1, op2` pair.
pub open spec fn no_pair(s: Seq<StageV>, op1: int, op2: int) -> bool {
    forall|k: int| 0 <= k && k + 1 < s.len() ==> !(pcs_kind(#[trigger] s[k]) == op1 && pcs_kind(s[k + 1]) == op2)
}

/// No two adjacent stages undo each other.
pub open spec fn no_inverse_pairs(s: Seq<StageV>) -> bool {
    no_pair(s, 1, 2) && no_pair(s, 2, 1) && no_pair(s, 4, 3) && no_pair(s, 3, 4)
}

/// Every matrix stage is 3 x 3 without an offset, so any two adjacent ones
/// can be merged.
pub open spec fn all_mergeable(s: Seq<StageV>) -> bool {
    forall|k: int|
        0 <= k < s.len() && (#[trigger] s[k] is Matrix) ==> (s[k] matches StageV::Matrix {
            rows,
            cols,
            offset,
            ..
        } && rows == 3 && cols == 3 && offset is None)
}

/// No two adjacent stages are both matrices.
pub open spec fn no_matrix_pair(s: Seq<StageV>) -> bool {
    forall|j: int, k: int|
        #![trigger s[j], s[k]]
        0 <= j && k == j + 1 && k < s.len() ==> !(s[j] is Matrix && s[k] is Matrix)
}

/// What replaces a pair of matrices: the merged one, or nothing.
pub open spec fn merged_stages(res: Option<Vec<u64>>) -> Seq<StageV> {
    match res {
        Some(p) => seq![StageV::Matrix { rows: 3, cols: 3, m: p@, offset: None }],
        None => Seq::empty(),
    }
}

/// A 3 x 3 matrix stage without an offset.
pub open spec fn is_mergeable(st: StageV) -> bool {
    st matches StageV::Matrix { rows, cols, offset, .. } && rows == 3 && cols == 3 && offset is None
}

/// The coefficients of a matrix stage.
pub open spec fn mat_of(st: StageV) -> Seq<u64> {
    match st {
        StageV::Matrix { m, .. } => m,
        _ => Seq::empty(),
    }
}

/// `r` is a value that `merge` may return for matrices `m1` then `m2`.
pub open spec fn merge_gives<F: Fn(&[u64], &[u64]) -> Option<Vec<u64>>>(
    merge: F,
    m1: Seq<u64>,
    m2: Seq<u64>,
    r: Option<Vec<u64>>,
) -> bool {
    exists|a: &[u64], b: &[u64]| a@ == m1 && b@ == m2 && call_ensures(merge, (a, b), r)
}

/// One merging pass over `s` from index `i`, each merge taking the next of
/// `rs` as the merged value: two adjacent mergeable matrices are replaced
/// by what [`merged_stages`] makes of it, and the scan goes on from the
/// same place; the pass stops at two adjacent matrices that cannot be
/// merged. The stages, the values left, and whether it stopped there.
pub open spec fn merge_pass(s: Seq<StageV>, i: int, rs: Seq<Option<Vec<u64>>>) -> (
    Seq<StageV>,
    Seq<Option<Vec<u64>>>,
    bool,
)
    decreases s.len(), s.len() - i,
{
    if i < 0 || i + 1 >= s.len() {
        (s, rs, false)
    } else if s[i] is Matrix && s[i + 1] is Matrix {
        if is_mergeable(s[i]) && is_mergeable(s[i + 1]) && rs.len() > 0 {
            merge_pass(
                s.subrange(0, i) + merged_stages(rs[0]) + s.subrange(i + 2, s.len() as int),
                i,
                rs.drop_first(),
            )
        } else {
            (s, rs, true)
        }
    } else {
        merge_pass(s, i + 1, rs)
    }
}

/// Every merged value [`merge_pass`] takes from `rs` is one that `merge`
/// may return for the two matrices it replaces.
pub open spec fn merge_pass_ok<F: Fn(&[u64], &[u64]) -> Option<Vec<u64>>>(
    merge: F,
    s: Seq<StageV>,
    i: int,
    rs: Seq<Option<Vec<u64>>>,
) -> bool
    decreases s.len(), s.len() - i,
{
    if i < 0 || i + 1 >= s.len() {
        true
    } else if s[i] is Matrix && s[i + 1] is Matrix {
        if is_mergeable(s[i]) && is_mergeable(s[i + 1]) {
            rs.len() > 0 && merge_gives(merge, mat_of(s[i]), mat_of(s[i + 1]), rs[0]) && merge_pass_ok(
                merge,
                s.subrange(0, i) + merged_stages(rs[0]) + s.subrange(i + 2, s.len() as int),
                i,
                rs.drop_first(),
            )
        } else {
            true
        }
    } else {
        merge_pass_ok(merge, s, i + 1, rs)
    }
}

/// A merging pass over `s` took exactly the values `rs`, whatever follows
/// them, and gave `out`, stopping early or not as `stopped` says.
pub open spec fn pass_took<F: Fn(&[u64], &[u64]) -> Option<Vec<u64>>>(
    merge: F,
    s: Seq<StageV>,
    rs: Seq<Option<Vec<u64>>>,
    out: Seq<StageV>,
    stopped: bool,
) -> bool {
    forall|rest: Seq<Option<Vec<u64>>>|
        #![trigger merge_pass(s, 0, rs + rest)]
        merge_pass(s, 0, rs + rest) == (out, rest, stopped) && merge_pass_ok(merge, s, 0, rs + rest)
}

/// The stages without identities and without the four inverse PCS pairs
/// (XYZ->Lab then Lab->XYZ, the other way round, Lab V4->V2 then V2->V4,
/// the other way round), removed in that order.
pub open spec fn pcs_clean(s: Seq<StageV>) -> Seq<StageV> {
    let s1 = drop_identities(s);
    let s2 = remove_pairs(s1, 1, 2, 0);
    let s3 = remove_pairs(s2, 2, 1, 0);
    let s4 = remove_pairs(s3, 4, 3, 0);
    remove_pairs(s4, 3, 4, 0)
}

/// One round of simplification, the merged values taken from `rs`: the
/// stages, the values left, and whether anything was removed or merged
/// (a merging pass that stopped early does not count).
pub open spec fn simplify_round(s: Seq<StageV>, rs: Seq<Option<Vec<u64>>>) -> (
    Seq<StageV>,
    Seq<Option<Vec<u64>>>,
    bool,
) {
    let s5 = pcs_clean(s);
    let (s6, rest, stopped) = merge_pass(s5, 0, rs);
    (s6, rest, s5.len() < s.len() || (!stopped && rest.len() < rs.len()))
}

/// Rounds of simplification until one changes nothing, the merged values
/// taken from `rs` in order.
pub open spec fn simplify(s: Seq<StageV>, rs: Seq<Option<Vec<u64>>>) -> Seq<StageV>
    decreases s.len(),
{
    let (s6, rest, again) = simplify_round(s, rs);
    if again && s6.len() < s.len() {
        simplify(s6, rest)
    } else {
        s6
    }
}

/// Every merged value that [`simplify`] takes from `rs` is one that
/// `merge` may return for the two matrices it replaces.
pub open spec fn simplify_ok<F: Fn(&[u64], &[u64]) -> Option<Vec<u64>>>(
    merge: F,
    s: Seq<StageV>,
    rs: Seq<Option<Vec<u64>>>,
) -> bool
    decreases s.len(),
{
    let (s6, rest, again) = simplify_round(s, rs);
    merge_pass_ok(merge, pcs_clean(s), 0, rs) && (again && s6.len() < s.len() ==> simplify_ok(merge, s6, rest))
}

/// `out` is what simplifying `s` gives with merged values `rs` that
/// `merge` may return.
pub open spec fn simplified_by<F: Fn(&[u64], &[u64]) -> Option<Vec<u64>>>(
    merge: F,
    s: Seq<StageV>,
    rs: Seq<Option<Vec<u64>>>,
    out: Seq<StageV>,
) -> bool {
    simplify_ok(merge, s, rs) && out == simplify(s, rs)
}

/// A merging pass that has reached index `i` of `cur` and ends there (at
/// the end, or at two matrices that cannot be merged) took the values `rs`.
proof fn lemma_pass_ends<F: Fn(&[u64], &[u64]) -> Option<Vec<u64>>>(
    merge: F,
    s: Seq<StageV>,
    rs: Seq<Option<Vec<u64>>>,
    cur: Seq<StageV>,
    i: int,
    stopped: bool,
)
    requires
        0 <= i,
        forall|rest: Seq<Option<Vec<u64>>>|
            #![trigger merge_pass(cur, i, rest)]
            merge_pass(s, 0, rs + rest) == merge_pass(cur, i, rest),
        forall|rest: Seq<Option<Vec<u64>>>|
            #![trigger merge_pass_ok(merge, cur, i, rest)]
            merge_pass_ok(merge, cur, i, rest) ==> merge_pass_ok(merge, s, 0, rs + rest),
        !stopped ==> i + 1 >= cur.len(),
        stopped ==> i + 1 < cur.len() && cur[i] is Matrix && cur[i + 1] is Matrix && !(is_mergeable(cur[i])
            && is_mergeable(cur[i + 1])),
    ensures
        pass_took(merge, s, rs, cur, stopped),
{
    assert forall|rest: Seq<Option<Vec<u64>>>|
        #![trigger merge_pass(s, 0, rs + rest)]
        merge_pass(s, 0, rs + rest) == (cur, rest, stopped) && merge_pass_ok(merge, s, 0, rs + rest) by {
        assert(merge_pass(cur, i, rest) == (cur, rest, stopped));
        assert(merge_pass_ok(merge, cur, i, rest));
    }
}

proof fn lemma_non_matrix_concat(a: Seq<StageV>, b: Seq<StageV>)
    ensures
        non_matrix(a + b) == non_matrix(a) + non_matrix(b),
    decreases b.len(),
{
    if b.len() == 0 {
        assert(a + b =~= a);
        assert(non_matrix(b) =~= Seq::<StageV>::empty());
        assert(non_matrix(a) + non_matrix(b) =~= non_matrix(a));
    } else {
        lemma_non_matrix_concat(a, b.drop_last());
        assert((a + b).drop_last() =~= a + b.drop_last());
        assert((a + b).last() == b.last());
        if !(b.last() is Matrix) {
            assert(non_matrix(a) + non_matrix(b.drop_last()).push(b.last()) =~= (non_matrix(a)
                + non_matrix(b.drop_last())).push(b.last()));
        }
    }
}

/// Every stage kept is a stage of the input.
proof fn lemma_drop_identities_sub(s: Seq<StageV>)
    ensures
        forall|k: int| 0 <= k < drop_identities(s).len() ==> s.contains(#[trigger] drop_identities(s)[k]),
    decreases s.len(),
{
    if s.len() > 0 {
        lemma_drop_identities_sub(s.drop_last());
        let d = drop_identities(s);
        let d0 = drop_identities(s.drop_last());
        assert forall|k: int| 0 <= k < d.len() implies s.contains(#[trigger] d[k]) by {
            if k < d0.len() {
                assert(d[k] == d0[k]);
                assert(s.drop_last().contains(d0[k]));
                let j = choose|j: int| 0 <= j < s.drop_last().len() && s.drop_last()[j] == d0[k];
                assert(s[j] == d0[k]);
            } else {
                assert(d[k] == s.last());
                assert(s[s.len() - 1] == s.last());
            }
        }
    }
}

proof fn lemma_drop_identities_clean(s: Seq<StageV>)
    ensures
        no_identities(drop_identities(s)),
        drop_identities(s).len() <= s.len(),
        drop_identities(s).len() == s.len() ==> drop_identities(s) == s,
        no_identities(s) ==> drop_identities(s) == s,
    decreases s.len(),
{
    if s.len() > 0 {
        lemma_drop_identities_clean(s.drop_last());
        assert(s.drop_last().push(s.last()) =~= s);
        if no_identities(s) {
            assert(no_identities(s.drop_last())) by {
                assert forall|k: int| 0 <= k < s.drop_last().len() implies !is_identity_stage(
                    #[trigger] s.drop_last()[k],
                ) by {
                    assert(s.drop_last()[k] == s[k]);
                }
            }
            assert(!is_identity_stage(s[s.len() - 1]));
        }
        let d = drop_identities(s);
        let d0 = drop_identities(s.drop_last());
        if !is_identity_stage(s.last()) {
            assert forall|k: int| 0 <= k < d.len() implies !is_identity_stage(#[trigger] d[k]) by {
                if k < d0.len() {
                    assert(d[k] == d0[k]);
                }
            }
        }
    }
}

/// Every identity stage writes as many channels as it reads.
pub open spec fn identities_keep_width(s: Seq<StageV>) -> bool {
    forall|k: int| 0 <= k < s.len() && is_identity_stage(#[trigger] s[k]) ==> st_in(s[k]) == st_out(s[k])
}

/// The width the stages end at, starting from `ic`.
pub open spec fn end_width(ic: nat, s: Seq<StageV>) -> nat {
    if s.len() == 0 {
        ic
    } else {
        st_out(s.last())
    }
}

proof fn lemma_chained_drop_last(ic: nat, s: Seq<StageV>)
    requires
        chained(ic, s),
        s.len() > 0,
    ensures
        chained(ic, s.drop_last()),
        st_in(s.last()) == end_width(ic, s.drop_last()),
{
    let t = s.drop_last();
    assert forall|k: int| 0 <= k < t.len() implies #[trigger] st_in(t[k]) == (if k == 0 {
        ic
    } else {
        st_out(t[k - 1])
    }) by {
        assert(t[k] == s[k]);
        if k > 0 {
            assert(t[k - 1] == s[k - 1]);
        }
    }
    assert(st_in(s[s.len() - 1]) == (if s.len() - 1 == 0 {
        ic
    } else {
        st_out(s[s.len() - 2])
    }));
    if s.len() > 1 {
        assert(t.last() == s[s.len() - 2]);
    }
}

proof fn lemma_chained_push(ic: nat, s: Seq<StageV>, x: StageV)
    requires
        chained(ic, s),
        st_in(x) == end_width(ic, s),
    ensures
        chained(ic, s.push(x)),
{
    let t = s.push(x);
    assert forall|k: int| 0 <= k < t.len() implies #[trigger] st_in(t[k]) == (if k == 0 {
        ic
    } else {
        st_out(t[k - 1])
    }) by {
        if k < s.len() {
            assert(t[k] == s[k]);
            if k > 0 {
                assert(t[k - 1] == s[k - 1]);
            }
        } else if k > 0 {
            assert(t[k - 1] == s.last());
        }
    }
}

/// Dropping identities that keep their width keeps the stages lined up and
/// ending at the same width.
proof fn lemma_drop_identities_chain(ic: nat, s: Seq<StageV>)
    requires
        chained(ic, s),
        identities_keep_width(s),
    ensures
        chained(ic, drop_identities(s)),
        end_width(ic, drop_identities(s)) == end_width(ic, s),
    decreases s.len(),
{
    if s.len() > 0 {
        let t = s.drop_last();
        lemma_chained_drop_last(ic, s);
        assert(identities_keep_width(t)) by {
            assert forall|k: int| 0 <= k < t.len() && is_identity_stage(#[trigger] t[k]) implies st_in(t[k])
                == st_out(t[k]) by {
                assert(t[k] == s[k]);
            }
        }
        lemma_drop_identities_chain(ic, t);
        if is_identity_stage(s.last()) {
            assert(s.last() == s[s.len() - 1]);
        } else {
            lemma_chained_push(ic, drop_identities(t), s.last());
        }
    } else {
        assert(drop_identities(s) == s);
    }
}

/// Replacing two adjacent stages by at most one stage that maps the same
/// width in to the same width out keeps the stages lined up.
proof fn lemma_splice_keeps_chain(ic: nat, sv: Seq<StageV>, i: int, mid: Seq<StageV>)
    requires
        chained(ic, sv),
        0 <= i,
        i + 1 < sv.len(),
        mid.len() <= 1,
        mid.len() == 0 ==> st_in(sv[i]) == st_out(sv[i + 1]),
        mid.len() == 1 ==> st_in(mid[0]) == st_in(sv[i]) && st_out(mid[0]) == st_out(sv[i + 1]),
    ensures
        chained(ic, sv.subrange(0, i) + mid + sv.subrange(i + 2, sv.len() as int)),
{
    let t = sv.subrange(0, i) + mid + sv.subrange(i + 2, sv.len() as int);
    let m = mid.len() as int;
    assert(st_in(sv[i]) == (if i == 0 {
        ic
    } else {
        st_out(sv[i - 1])
    }));
    assert(st_in(sv[i + 2]) == st_out(sv[i + 1]) || i + 2 >= sv.len());
    assert forall|k: int| 0 <= k < t.len() implies #[trigger] st_in(t[k]) == (if k == 0 {
        ic
    } else {
        st_out(t[k - 1])
    }) by {
        if k < i {
            assert(t[k] == sv[k]);
            if k > 0 {
                assert(t[k - 1] == sv[k - 1]);
            }
        } else if k < i + m {
            assert(t[k] == mid[0]);
            if k > 0 {
                assert(t[k - 1] == sv[k - 1]);
            }
        } else {
            assert(t[k] == sv[k + 2 - m]);
            assert(st_in(sv[k + 2 - m]) == st_out(sv[k + 1 - m]));
            if k == i + m && m == 1 {
                assert(t[k - 1] == mid[0]);
            } else if k == i && m == 0 {
                if k > 0 {
                    assert(t[k - 1] == sv[k - 1]);
                }
            } else {
                assert(t[k - 1] == sv[k + 1 - m]);
            }
        }
    }
}

/// Replacing two adjacent stages by stages that are not identities keeps
/// every identity at its width.
proof fn lemma_splice_keeps_widths(sv: Seq<StageV>, i: int, mid: Seq<StageV>)
    requires
        identities_keep_width(sv),
        0 <= i,
        i + 1 < sv.len(),
        forall|k: int| 0 <= k < mid.len() ==> !is_identity_stage(#[trigger] mid[k]),
    ensures
        identities_keep_width(sv.subrange(0, i) + mid + sv.subrange(i + 2, sv.len() as int)),
{
    let t = sv.subrange(0, i) + mid + sv.subrange(i + 2, sv.len() as int);
    let m = mid.len() as int;
    assert forall|k: int| 0 <= k < t.len() && is_identity_stage(#[trigger] t[k]) implies st_in(t[k]) == st_out(
        t[k],
    ) by {
        if k < i {
            assert(t[k] == sv[k]);
        } else if k < i + m {
            assert(t[k] == mid[k - i]);
        } else {
            assert(t[k] == sv[k + 2 - m]);
        }
    }
}

/// The trilinear hint set on a table stage.
pub open spec fn trilinear(s: StageV) -> StageV {
    match s {
        StageV::Clut(c) => StageV::Clut(ClutV { is_trilinear: true, ..c }),
        _ => s,
    }
}

impl Pipeline {
    /// Append copies of `other`'s stages one by one, as the
    /// end insertion does; two empty pipelines just take `other`'s widths,
    /// and appending an empty pipeline keeps the last stage's output width. A
    /// stage that does not chain is reported as a corrupt concatenation and
    /// leaves the stages appended before it in place.
    pub fn concat(&mut self, other: &Pipeline) -> (r: Result<(), Error>)
        ensures
            if old(self).sv().len() == 0 && other.sv().len() == 0 {
                r is Ok && final(self).ic() == other.ic() && final(self).oc() == other.oc()
                    && final(self).sv() == old(self).sv()
            } else {
                let e0 = if old(self).sv().len() == 0 {
                    other.ic() as nat
                } else {
                    st_out(old(self).sv().last())
                };
                let ic1 = if old(self).sv().len() == 0 {
                    other.ic()
                } else {
                    old(self).ic()
                };
                &&& final(self).ic() == ic1
                &&& match first_break(e0, other.sv(), 0) {
                    Some((k, e)) => r == Err::<(), Error>(e) && final(self).sv() == old(self).sv()
                        + other.sv().subrange(0, k) && final(self).oc() == old(self).oc(),
                    None => r is Ok && final(self).sv() == old(self).sv() + other.sv()
                        && final(self).oc() == (if other.sv().len() == 0 {
                        st_out(old(self).sv().last())
                    } else {
                        other.oc() as nat
                    }),
                }
            },
    {
        if self.stages.len() == 0 && other.stages.len() == 0 {
            self.input_channels = other.input_channels;
            self.output_channels = other.output_channels;
            return Ok(());
        }
        if self.stages.len() == 0 {
            self.input_channels = other.input_channels;
        }
        let ghost e0 = if old(self).sv().len() == 0 {
            other.ic() as nat
        } else {
            st_out(old(self).sv().last())
        };
        let mut k: usize = 0;
        while k < other.stages.len()
            invariant
                k <= other.sv().len(),
                other.sv().len() == other.stages@.len(),
                self.sv() == old(self).sv() + other.sv().subrange(0, k as int),
                self.oc() == old(self).oc(),
                self.ic() == (if old(self).sv().len() == 0 {
                    other.ic()
                } else {
                    old(self).ic()
                }),
                e0 == (if old(self).sv().len() == 0 {
                    other.ic() as nat
                } else {
                    st_out(old(self).sv().last())
                }),
                old(self).sv().len() > 0 || other.sv().len() > 0,
                first_break(e0, other.sv(), 0) == first_break(
                    if self.sv().len() == 0 {
                        self.ic() as nat
                    } else {
                        st_out(self.sv().last())
                    },
                    other.sv(),
                    k as int,
                ),
            decreases other.stages.len() - k,
        {
            let st = other.stages[k].dup();
            assert(st@ == other.sv()[k as int]);
            let too_wide = st.input_channels() > MAX_STAGE_CHANNELS || st.output_channels()
                > MAX_STAGE_CHANNELS;
            match self.insert_stage_at_end(st) {
                Ok(()) => {},
                Err(e) => {
                    if too_wide {
                        return Err(e);
                    }
                    return Err(
                        Error::Corrupt("pipeline output width does not chain with concatenated pipeline"),
                    );
                },
            }
            k += 1;
            assert(self.sv() =~= old(self).sv() + other.sv().subrange(0, k as int));
        }
        assert(other.sv().subrange(0, other.sv().len() as int) =~= other.sv());
        if other.stages.len() == 0 {
            // Nothing was appended: the width stays that of the last stage.
            let n = self.stages.len();
            assert(self.sv()[n - 1] == self.stages@[n - 1]@);
            self.output_channels = self.stages[n - 1].output_channels();
        } else {
            self.output_channels = other.output_channels;
        }
        Ok(())
    }

    /// Every table stage interpolates
    /// trilinearly.
    pub fn change_interpolation_to_trilinear(&mut self)
        ensures
            final(self).ic() == old(self).ic(),
            final(self).oc() == old(self).oc(),
            final(self).sv() == old(self).sv().map_values(|s: StageV| trilinear(s)),
    {
        let mut i: usize = 0;
        while i < self.stages.len()
            invariant
                i <= self.stages@.len(),
                self.stages@.len() == old(self).stages@.len(),
                self.ic() == old(self).ic(),
                self.oc() == old(self).oc(),
                forall|k: int| 0 <= k < self.stages@.len() ==> #[trigger] self.sv()[k] == if k < i {
                    trilinear(old(self).sv()[k])
                } else {
                    old(self).sv()[k]
                },
            decreases self.stages.len() - i,
        {
            let ghost before = self.sv();
            assert(before[i as int] == old(self).sv()[i as int]);
            assert(before[i as int] == self.stages@[i as int]@);
            let c = match &self.stages[i] {
                Stage::Clut(c) => Some(c.copy_with_trilinear(true)),
                _ => None,
            };
            match c {
                Some(c2) => {
                    self.stages.set(i, Stage::Clut(c2));
                    assert(self.sv() =~= before.update(i as int, trilinear(before[i as int])));
                },
                None => {
                    assert(trilinear(before[i as int]) == before[i as int]);
                },
            }
            i += 1;
        }
        assert(self.sv() =~= old(self).sv().map_values(|s: StageV| trilinear(s)));
    }
}


impl Pipeline {
    /// Drop every identity stage (plain
    /// identities and tables built as identities).
    fn remove_1op_identity(&mut self) -> (r: bool)
        ensures
            final(self).ic() == old(self).ic(),
            final(self).oc() == old(self).oc(),
            final(self).sv() == drop_identities(old(self).sv()),
            r == (final(self).sv().len() < old(self).sv().len()),
            !r ==> final(self).sv() == old(self).sv(),
            no_identities(final(self).sv()),
            all_mergeable(old(self).sv()) ==> all_mergeable(final(self).sv()),
            chained(old(self).ic() as nat, old(self).sv()) && identities_keep_width(old(self).sv()) ==> chained(
                old(self).ic() as nat,
                final(self).sv(),
            ),
    {
        let mut kept: Vec<Stage> = Vec::new();
        let mut i: usize = 0;
        let ghost sv0 = self.sv();
        while i < self.stages.len()
            invariant
                i <= self.stages@.len(),
                sv0 == self.sv(),
                sv0 == old(self).sv(),
                self.ic() == old(self).ic(),
                self.oc() == old(self).oc(),
                stages_view(kept@) == drop_identities(sv0.subrange(0, i as int)),
            decreases self.stages.len() - i,
        {
            let identity = match &self.stages[i] {
                Stage::Identity(_) => true,
                Stage::Clut(c) => c.implements_identity,
                _ => false,
            };
            assert(sv0.subrange(0, i + 1).drop_last() =~= sv0.subrange(0, i as int));
            assert(sv0.subrange(0, i + 1).last() == self.stages@[i as int]@);
            if !identity {
                let st = self.stages[i].dup();
                kept.push(st);
            }
            i += 1;
            assert(stages_view(kept@) =~= drop_identities(sv0.subrange(0, i as int)));
        }
        assert(sv0.subrange(0, sv0.len() as int) =~= sv0);
        proof {
            lemma_drop_identities_clean(sv0);
            lemma_drop_identities_sub(sv0);
            if chained(old(self).ic() as nat, sv0) && identities_keep_width(sv0) {
                lemma_drop_identities_chain(old(self).ic() as nat, sv0);
            }
            let d = drop_identities(sv0);
            if all_mergeable(sv0) {
                assert forall|k: int| 0 <= k < d.len() && (#[trigger] d[k] is Matrix) implies (
                d[k] matches StageV::Matrix { rows, cols, offset, .. } && rows == 3 && cols == 3
                    && offset is None) by {
                    assert(sv0.contains(d[k]));
                    let j = choose|j: int| 0 <= j < sv0.len() && sv0[j] == d[k];
                    assert(sv0[j] is Matrix);
                }
            }
        }
        let changed = kept.len() < self.stages.len();
        self.stages = kept;
        changed
    }

    /// Remove each adjacent `op1, op2` pair, scanning on from
    /// the same place after a removal.
    fn remove_2op(&mut self, op1: StageKind, op2: StageKind) -> (r: bool)
        ensures
            final(self).ic() == old(self).ic(),
            final(self).oc() == old(self).oc(),
            final(self).sv() == remove_pairs(old(self).sv(), kind_num(op1), kind_num(op2), 0),
            r ==> final(self).sv().len() < old(self).sv().len(),
            !r ==> final(self).sv() == old(self).sv() && no_pair(
                old(self).sv(),
                kind_num(op1),
                kind_num(op2),
            ),
            no_identities(old(self).sv()) ==> no_identities(final(self).sv()),
            all_mergeable(old(self).sv()) ==> all_mergeable(final(self).sv()),
            chained(old(self).ic() as nat, old(self).sv()) ==> chained(old(self).ic() as nat, final(self).sv()),
            identities_keep_width(old(self).sv()) ==> identities_keep_width(final(self).sv()),
    {
        let ghost a = kind_num(op1);
        let ghost b = kind_num(op2);
        let mut any = false;
        let mut i: usize = 0;
        while self.stages.len() > 0 && i < self.stages.len() - 1
            invariant
                self.ic() == old(self).ic(),
                self.oc() == old(self).oc(),
                a == kind_num(op1),
                b == kind_num(op2),
                remove_pairs(old(self).sv(), a, b, 0) == remove_pairs(self.sv(), a, b, i as int),
                any ==> self.sv().len() < old(self).sv().len(),
                !any ==> self.sv() == old(self).sv(),
                !any ==> forall|k: int|
                    0 <= k < i && k + 1 < self.sv().len() ==> !(pcs_kind(#[trigger] self.sv()[k]) == a
                        && pcs_kind(self.sv()[k + 1]) == b),
                no_identities(old(self).sv()) ==> no_identities(self.sv()),
                all_mergeable(old(self).sv()) ==> all_mergeable(self.sv()),
                chained(old(self).ic() as nat, old(self).sv()) ==> chained(old(self).ic() as nat, self.sv()),
                identities_keep_width(old(self).sv()) ==> identities_keep_width(self.sv()),
                i <= self.stages@.len(),
            decreases 2 * self.stages@.len() - i,
        {
            let k0 = stage_kind(&self.stages[i]);
            let k1 = stage_kind(&self.stages[i + 1]);
            let ghost sv = self.sv();
            assert(sv[i as int] == self.stages@[i as int]@);
            assert(sv[i + 1] == self.stages@[i + 1]@);
            if kind_is(k0, op1) && kind_is(k1, op2) {
                self.stages.remove(i + 1);
                self.stages.remove(i);
                any = true;
                assert(self.sv() =~= sv.subrange(0, i as int) + sv.subrange(i + 2, sv.len() as int));
                proof {
                    let e = Seq::<StageV>::empty();
                    assert(sv.subrange(0, i as int) + e =~= sv.subrange(0, i as int));
                    if chained(old(self).ic() as nat, old(self).sv()) {
                        lemma_splice_keeps_chain(old(self).ic() as nat, sv, i as int, e);
                    }
                    if identities_keep_width(old(self).sv()) {
                        lemma_splice_keeps_widths(sv, i as int, e);
                    }
                    if no_identities(old(self).sv()) {
                        assert forall|k: int| 0 <= k < self.sv().len() implies !is_identity_stage(
                            #[trigger] self.sv()[k],
                        ) by {
                            if k < i {
                                assert(self.sv()[k] == sv[k]);
                            } else {
                                assert(self.sv()[k] == sv[k + 2]);
                            }
                        }
                    }
                    if all_mergeable(old(self).sv()) {
                        assert forall|k: int| 0 <= k < self.sv().len() && (#[trigger] self.sv()[k] is Matrix) implies (
                        self.sv()[k] matches StageV::Matrix { rows, cols, offset, .. } && rows == 3
                            && cols == 3 && offset is None) by {
                            if k < i {
                                assert(self.sv()[k] == sv[k]);
                            } else {
                                assert(self.sv()[k] == sv[k + 2]);
                            }
                        }
                    }
                }
            } else {
                i += 1;
            }
        }
        any
    }
}

/// The PCS conversions the pair rules name.
#[derive(Clone, Copy, Debug, PartialEq, Eq, Structural)]
enum StageKind {
    Xyz2Lab,
    Lab2Xyz,
    LabV2ToV4,
    LabV4ToV2,
}

spec fn kind_num(k: StageKind) -> int {
    match k {
        StageKind::Xyz2Lab => 1,
        StageKind::Lab2Xyz => 2,
        StageKind::LabV2ToV4 => 3,
        StageKind::LabV4ToV2 => 4,
    }
}

/// The PCS conversion a stage performs, if any.
fn stage_kind(s: &Stage) -> (r: Option<StageKind>)
    ensures
        match r {
            Some(k) => pcs_kind(s@) == kind_num(k),
            None => pcs_kind(s@) == 0,
        },
{
    match s {
        Stage::Xyz2Lab => Some(StageKind::Xyz2Lab),
        Stage::Lab2Xyz => Some(StageKind::Lab2Xyz),
        Stage::LabV2ToV4 => Some(StageKind::LabV2ToV4),
        Stage::LabV4ToV2 => Some(StageKind::LabV4ToV2),
        _ => None,
    }
}

fn kind_is(k: Option<StageKind>, want: StageKind) -> (r: bool)
    ensures
        r == (k == Some(want)),
{
    match k {
        Some(x) => x == want,
        None => false,
    }
}


/// Replacing two adjacent matrices by at most one matrix keeps the other
/// stages.
proof fn lemma_replace_matrices(sv: Seq<StageV>, i: int, mid: Seq<StageV>)
    requires
        0 <= i,
        i + 1 < sv.len(),
        sv[i] is Matrix,
        sv[i + 1] is Matrix,
        mid.len() <= 1,
        forall|k: int| 0 <= k < mid.len() ==> #[trigger] mid[k] is Matrix,
    ensures
        non_matrix(sv.subrange(0, i) + mid + sv.subrange(i + 2, sv.len() as int)) == non_matrix(sv),
{
    let a = sv.subrange(0, i);
    let b = sv.subrange(i + 2, sv.len() as int);
    let pair = sv.subrange(i, i + 2);
    assert(sv =~= a + pair + b);
    lemma_non_matrix_concat(a + pair, b);
    lemma_non_matrix_concat(a, pair);
    lemma_non_matrix_concat(a + mid, b);
    lemma_non_matrix_concat(a, mid);
    assert(pair.drop_last().drop_last() =~= Seq::<StageV>::empty());
    assert(pair.last() is Matrix);
    assert(pair.drop_last().last() is Matrix);
    reveal_with_fuel(non_matrix, 3);
    assert(non_matrix(pair) =~= Seq::<StageV>::empty());
    if mid.len() == 1 {
        assert(mid.drop_last() =~= Seq::<StageV>::empty());
        assert(mid.last() is Matrix);
    } else {
        assert(mid =~= Seq::<StageV>::empty());
    }
    assert(non_matrix(mid) =~= Seq::<StageV>::empty());
    assert(non_matrix(a) + Seq::<StageV>::empty() =~= non_matrix(a));
}

impl Pipeline {
    /// Replace the matrices at `i` and `i + 1` by the merged one, if any.
    fn replace_pair(&mut self, i: usize, res: Option<Vec<u64>>)
        requires
            i + 1 < old(self).sv().len(),
            old(self).sv()[i as int] is Matrix,
            old(self).sv()[i + 1] is Matrix,
            st_in(old(self).sv()[i as int]) == 3,
            st_out(old(self).sv()[i + 1]) == 3,
        ensures
            final(self).ic() == old(self).ic(),
            final(self).oc() == old(self).oc(),
            chained(old(self).ic() as nat, old(self).sv()) ==> chained(old(self).ic() as nat, final(self).sv()),
            identities_keep_width(old(self).sv()) ==> identities_keep_width(final(self).sv()),
            non_matrix(final(self).sv()) == non_matrix(old(self).sv()),
            final(self).sv().len() < old(self).sv().len(),
            final(self).stages@.len() < old(self).stages@.len(),
            final(self).stages@.len() + 2 >= old(self).stages@.len(),
            final(self).sv() == old(self).sv().subrange(0, i as int) + merged_stages(res)
                + old(self).sv().subrange(i + 2, old(self).sv().len() as int),
            all_mergeable(old(self).sv()) ==> all_mergeable(final(self).sv()),
            no_identities(old(self).sv()) ==> no_identities(final(self).sv()),
    {
        let ghost sv = self.sv();
        let n = self.stages.len();
        assert(i + 1 < n);
        self.stages.remove(i + 1);
        self.stages.remove(i);
        let ghost mid: Seq<StageV> = match &res {
            Some(p) => seq![StageV::Matrix { rows: 3, cols: 3, m: p@, offset: None }],
            None => Seq::empty(),
        };
        match res {
            Some(p) => {
                self.stages.insert(i, Stage::Matrix { rows: 3, cols: 3, m: p, offset: None });
            },
            None => {},
        }
        assert(self.sv() =~= sv.subrange(0, i as int) + mid + sv.subrange(i + 2, sv.len() as int));
        proof {
            lemma_replace_matrices(sv, i as int, mid);
            if chained(old(self).ic() as nat, sv) {
                lemma_splice_keeps_chain(old(self).ic() as nat, sv, i as int, mid);
            }
            if identities_keep_width(sv) {
                lemma_splice_keeps_widths(sv, i as int, mid);
            }
            if no_identities(sv) {
                assert forall|k: int| 0 <= k < self.sv().len() implies !is_identity_stage(
                    #[trigger] self.sv()[k],
                ) by {
                    if k < i {
                        assert(self.sv()[k] == sv[k]);
                    } else if k >= i + mid.len() {
                        assert(self.sv()[k] == sv[k + 2 - mid.len()]);
                    }
                }
            }
            if all_mergeable(sv) {
                assert forall|k: int|
                    0 <= k < self.sv().len() && (#[trigger] self.sv()[k] is Matrix) implies (
                self.sv()[k] matches StageV::Matrix { rows, cols, offset, .. } && rows == 3 && cols
                    == 3 && offset is None) by {
                    if k < i {
                        assert(self.sv()[k] == sv[k]);
                    } else if k >= i + mid.len() {
                        assert(self.sv()[k] == sv[k + 2 - mid.len()]);
                    }
                }
            }
        }
    }

    /// Merge each adjacent pair of 3 x 3 matrices without
    /// offsets; `merge(m1, m2)` gives the product `m2 * m1` (m1 applies
    /// first), or `None` when that product is the identity, in which case
    /// both are dropped. Two adjacent matrices that cannot be merged end the
    /// pass with `false`.
    #[verifier::spinoff_prover]
    fn multiply_matrix<F: Fn(&[u64], &[u64]) -> Option<Vec<u64>>>(&mut self, merge: &F) -> (r: bool)
        requires
            forall|a: &[u64], b: &[u64]| merge.requires((a, b)),
        ensures
            final(self).ic() == old(self).ic(),
            final(self).oc() == old(self).oc(),
            non_matrix(final(self).sv()) == non_matrix(old(self).sv()),
            final(self).sv().len() <= old(self).sv().len(),
            final(self).sv().len() == old(self).sv().len() ==> final(self).sv() == old(self).sv(),
            r ==> final(self).sv().len() < old(self).sv().len(),
            all_mergeable(old(self).sv()) ==> r == (final(self).sv().len() < old(self).sv().len()),
            all_mergeable(old(self).sv()) ==> all_mergeable(final(self).sv()),
            no_identities(old(self).sv()) ==> no_identities(final(self).sv()),
            chained(old(self).ic() as nat, old(self).sv()) ==> chained(old(self).ic() as nat, final(self).sv()),
            identities_keep_width(old(self).sv()) ==> identities_keep_width(final(self).sv()),
            all_mergeable(old(self).sv()) ==> no_matrix_pair(final(self).sv()),
            exists|rs: Seq<Option<Vec<u64>>>, stopped: bool|
                #![trigger pass_took(*merge, old(self).sv(), rs, final(self).sv(), stopped)]
                pass_took(*merge, old(self).sv(), rs, final(self).sv(), stopped) && r == (!stopped && rs.len()
                    > 0),
    {
        let mut any = false;
        let mut i: usize = 0;
        let ghost mut rs: Seq<Option<Vec<u64>>> = Seq::empty();
        while self.stages.len() > 0 && i < self.stages.len() - 1
            invariant
                forall|a: &[u64], b: &[u64]| merge.requires((a, b)),
                self.ic() == old(self).ic(),
                self.oc() == old(self).oc(),
                non_matrix(self.sv()) == non_matrix(old(self).sv()),
                self.sv().len() <= old(self).sv().len(),
                any ==> self.sv().len() < old(self).sv().len(),
                !any ==> self.sv() == old(self).sv(),
                all_mergeable(old(self).sv()) ==> all_mergeable(self.sv()),
                no_identities(old(self).sv()) ==> no_identities(self.sv()),
                chained(old(self).ic() as nat, old(self).sv()) ==> chained(old(self).ic() as nat, self.sv()),
                identities_keep_width(old(self).sv()) ==> identities_keep_width(self.sv()),
                i <= self.stages@.len(),
                self.stages@.len() == self.sv().len(),
                all_mergeable(old(self).sv()) ==> forall|j: int, k: int|
                    #![trigger self.sv()[j], self.sv()[k]]
                    0 <= j && k == j + 1 && k <= i && k < self.sv().len() ==> !(self.sv()[j] is Matrix
                        && self.sv()[k] is Matrix),
                any == (rs.len() > 0),
                forall|rest: Seq<Option<Vec<u64>>>|
                    #![trigger merge_pass(self.sv(), i as int, rest)]
                    merge_pass(old(self).sv(), 0, rs + rest) == merge_pass(self.sv(), i as int, rest),
                forall|rest: Seq<Option<Vec<u64>>>|
                    #![trigger merge_pass_ok(*merge, self.sv(), i as int, rest)]
                    merge_pass_ok(*merge, self.sv(), i as int, rest) ==> merge_pass_ok(
                        *merge,
                        old(self).sv(),
                        0,
                        rs + rest,
                    ),
            decreases 2 * self.stages@.len() - i,
        {
            let ghost sv = self.sv();
            assert(sv[i as int] == self.stages@[i as int]@);
            assert(sv[i + 1] == self.stages@[i + 1]@);
            let is_m0 = match &self.stages[i] {
                Stage::Matrix { .. } => true,
                _ => false,
            };
            let is_m1 = match &self.stages[i + 1] {
                Stage::Matrix { .. } => true,
                _ => false,
            };
            if is_m0 && is_m1 {
                let prod: Option<Option<Vec<u64>>> = match &self.stages[i] {
                    Stage::Matrix { rows, cols, m, offset } => {
                        if *rows == 3 && *cols == 3 && offset.is_none() {
                            match &self.stages[i + 1] {
                                Stage::Matrix { rows: r2, cols: c2, m: m2, offset: o2 } => {
                                    if *r2 == 3 && *c2 == 3 && o2.is_none() {
                                        let v = merge(m.as_slice(), m2.as_slice());
                                        proof {
                                            assert(merge_gives(*merge, m@, m2@, v));
                                        }
                                        Some(v)
                                    } else {
                                        None
                                    }
                                },
                                _ => None,
                            }
                        } else {
                            None
                        }
                    },
                    _ => None,
                };
                match prod {
                    None => {
                        proof {
                            assert(!(is_mergeable(sv[i as int]) && is_mergeable(sv[i + 1])));
                            lemma_pass_ends(*merge, old(self).sv(), rs, self.sv(), i as int, true);
                        }
                        return false;
                    },
                    Some(res) => {
                        let ghost m1 = mat_of(sv[i as int]);
                        let ghost m2 = mat_of(sv[i + 1]);
                        proof {
                            assert(is_mergeable(sv[i as int]) && is_mergeable(sv[i + 1]));
                            assert(merge_gives(*merge, m1, m2, res));
                        }
                        let ghost rs0 = rs;
                        self.replace_pair(i, res);
                        proof {
                            rs = rs0.push(res);
                            assert forall|rest: Seq<Option<Vec<u64>>>|
                                #![trigger merge_pass(self.sv(), i as int, rest)]
                                merge_pass(old(self).sv(), 0, rs + rest) == merge_pass(self.sv(), i as int, rest) by {
                                let r2 = seq![res] + rest;
                                assert(rs + rest =~= rs0 + r2);
                                assert(r2.drop_first() =~= rest);
                                assert(r2[0] == res);
                                assert(merge_pass(sv, i as int, r2) == merge_pass(self.sv(), i as int, rest));
                            }
                            assert forall|rest: Seq<Option<Vec<u64>>>|
                                #![trigger merge_pass_ok(*merge, self.sv(), i as int, rest)]
                                merge_pass_ok(*merge, self.sv(), i as int, rest) implies merge_pass_ok(
                                    *merge,
                                    old(self).sv(),
                                    0,
                                    rs + rest,
                                ) by {
                                let r2 = seq![res] + rest;
                                assert(rs + rest =~= rs0 + r2);
                                assert(r2.drop_first() =~= rest);
                                assert(r2[0] == res);
                                assert(merge_pass_ok(*merge, sv, i as int, r2));
                            }
                        }
                        any = true;
                    },
                }
            } else {
                proof {
                    assert forall|rest: Seq<Option<Vec<u64>>>|
                        #![trigger merge_pass(self.sv(), i + 1, rest)]
                        merge_pass(self.sv(), i as int, rest) == merge_pass(self.sv(), i + 1, rest) by {}
                    assert forall|rest: Seq<Option<Vec<u64>>>|
                        #![trigger merge_pass_ok(*merge, self.sv(), i + 1, rest)]
                        merge_pass_ok(*merge, self.sv(), i as int, rest) == merge_pass_ok(
                            *merge,
                            self.sv(),
                            i + 1,
                            rest,
                        ) by {}
                }
                i += 1;
            }
        }
        proof {
            lemma_pass_ends(*merge, old(self).sv(), rs, self.sv(), i as int, false);
        }
        any
    }

    /// The simplification before optimizing: repeat until nothing changes: drop identity stages,
    /// drop adjacent pairs of PCS conversions that undo each other
    /// (XYZ->Lab with Lab->XYZ either way round, Lab V4->V2 with V2->V4 either
    /// way round), and merge adjacent 3 x 3 matrices without offsets through
    /// `merge` (see [`Pipeline::multiply_matrix`]).
    #[verifier::spinoff_prover]
    pub fn pre_optimize<F: Fn(&[u64], &[u64]) -> Option<Vec<u64>>>(&mut self, merge: F)
        requires
            forall|a: &[u64], b: &[u64]| merge.requires((a, b)),
        ensures
            final(self).ic() == old(self).ic(),
            final(self).oc() == old(self).oc(),
            final(self).sv().len() <= old(self).sv().len(),
            no_identities(final(self).sv()),
            all_mergeable(old(self).sv()) ==> no_inverse_pairs(final(self).sv()),
            all_mergeable(old(self).sv()) ==> all_mergeable(final(self).sv()),
            chained(old(self).ic() as nat, old(self).sv()) && identities_keep_width(old(self).sv()) ==> chained(
                final(self).ic() as nat,
                final(self).sv(),
            ),
            exists|rs: Seq<Option<Vec<u64>>>|
                #![trigger simplified_by(merge, old(self).sv(), rs, final(self).sv())]
                simplified_by(merge, old(self).sv(), rs, final(self).sv()),
    {
        let mut again = true;
        let ghost mut pre: Seq<Option<Vec<u64>>> = Seq::empty();
        while again
            invariant
                forall|a: &[u64], b: &[u64]| merge.requires((a, b)),
                self.ic() == old(self).ic(),
                self.oc() == old(self).oc(),
                self.sv().len() <= old(self).sv().len(),
                self.stages@.len() == self.sv().len(),
                !again ==> no_identities(self.sv()),
                !again && all_mergeable(old(self).sv()) ==> no_inverse_pairs(self.sv()),
                all_mergeable(old(self).sv()) ==> all_mergeable(self.sv()),
                chained(old(self).ic() as nat, old(self).sv()) && identities_keep_width(old(self).sv()) ==> chained(
                    self.ic() as nat,
                    self.sv(),
                ) && identities_keep_width(self.sv()),
                again ==> forall|rest: Seq<Option<Vec<u64>>>|
                    #![trigger simplify(self.sv(), rest)]
                    simplify(old(self).sv(), pre + rest) == simplify(self.sv(), rest) && (simplify_ok(
                        merge,
                        self.sv(),
                        rest,
                    ) ==> simplify_ok(merge, old(self).sv(), pre + rest)),
                !again ==> simplified_by(merge, old(self).sv(), pre, self.sv()),
            decreases self.stages@.len() + if again {
                1int
            } else {
                0int
            },
        {
            let ghost s0 = self.sv();
            let r1 = self.remove_1op_identity();
            let r2 = self.remove_2op(StageKind::Xyz2Lab, StageKind::Lab2Xyz);
            let r3 = self.remove_2op(StageKind::Lab2Xyz, StageKind::Xyz2Lab);
            let r4 = self.remove_2op(StageKind::LabV4ToV2, StageKind::LabV2ToV4);
            let r5 = self.remove_2op(StageKind::LabV2ToV4, StageKind::LabV4ToV2);
            let ghost s5 = self.sv();
            proof {
                assert(s5 == pcs_clean(s0));
                assert((r1 || r2 || r3 || r4 || r5) == (s5.len() < s0.len()));
            }
            let r6 = self.multiply_matrix(&merge);
            proof {
                let (rk, stp) = choose|rk: Seq<Option<Vec<u64>>>, stp: bool|
                    pass_took(merge, s5, rk, self.sv(), stp) && r6 == (!stp && rk.len() > 0);
                let s6 = self.sv();
                let again2 = r1 || r2 || r3 || r4 || r5 || r6;
                assert forall|rest: Seq<Option<Vec<u64>>>|
                    #![trigger simplify(s6, rest)]
                    simplify(s0, rk + rest) == (if again2 {
                        simplify(s6, rest)
                    } else {
                        s6
                    }) && (again2 && simplify_ok(merge, s6, rest) ==> simplify_ok(merge, s0, rk + rest)) && (
                    !again2 ==> simplify_ok(merge, s0, rk + rest)) by {
                    assert(merge_pass(s5, 0, rk + rest) == (s6, rest, stp));
                    assert(merge_pass_ok(merge, s5, 0, rk + rest));
                    assert(simplify_round(s0, rk + rest) == (s6, rest, again2));
                }
                let pre2 = pre + rk;
                if again2 {
                    assert forall|rest: Seq<Option<Vec<u64>>>|
                        #![trigger simplify(s6, rest)]
                        simplify(old(self).sv(), pre2 + rest) == simplify(s6, rest) && (simplify_ok(
                            merge,
                            s6,
                            rest,
                        ) ==> simplify_ok(merge, old(self).sv(), pre2 + rest)) by {
                        assert(pre2 + rest =~= pre + (rk + rest));
                        assert(simplify(s0, rk + rest) == simplify(s6, rest));
                    }
                } else {
                    let e = Seq::<Option<Vec<u64>>>::empty();
                    assert(pre2 + e =~= pre + (rk + e));
                    assert(rk + e =~= rk);
                    assert(pre2 + e =~= pre2);
                    assert(simplify(s0, rk + e) == s6);
                    assert(simplify_ok(merge, s0, rk + e));
                    assert(simplified_by(merge, old(self).sv(), pre2, s6));
                }
                pre = pre2;
            }
            again = r1 || r2 || r3 || r4 || r5 || r6;
        }
    }
}

} // verus!
