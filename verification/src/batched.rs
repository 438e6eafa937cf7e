//! Planning the 16-bit runs of a batched pipeline: consecutive stages that
//! can work on 16-bit words (tone curves and 16-bit CLUTs) are fused into
//! one run when every boundary the run touches is a 16-bit quantization
//! point, so that evaluating the run on words gives the same bytes as the
//! stage-by-stage float evaluation.

use vstd::prelude::*;

verus! {

/// A stage that can work on 16-bit words.
#[derive(Clone, Copy, Debug, PartialEq, Eq, Structural)]
pub enum U16Kind {
    Curves,
    Clut,
}

/// Boundary `pos` (0 is the pipeline entry, `len` its exit, otherwise the
/// boundary before stage `pos`) carries a 16-bit value: it is the entry or
/// the exit, or it touches a 16-bit CLUT.
pub open spec fn quant_boundary(members: Seq<Option<U16Kind>>, pos: int) -> bool {
    ||| pos == 0
    ||| pos == members.len()
    ||| members[pos - 1] == Some(U16Kind::Clut)
    ||| members[pos] == Some(U16Kind::Clut)
}

pub fn is_quant_boundary(members: &[Option<U16Kind>], pos: usize) -> (r: bool)
    requires
        pos <= members@.len(),
    ensures
        r == quant_boundary(members@, pos as int),
{
    let n = members.len();
    if pos == 0 || pos == n {
        return true;
    }
    members[pos - 1] == Some(U16Kind::Clut) || members[pos] == Some(U16Kind::Clut)
}

/// One piece of a planned stage list: a fused run over stages `start..=end`,
/// or stage `i` kept as it is.
#[derive(Clone, Copy, Debug, PartialEq, Eq, Structural)]
pub enum Segment {
    Run { start: usize, end: usize },
    Keep(usize),
}

/// A run may start at stage `i` when boundary `i` carries a 16-bit value or
/// the stage is a wholly tabulated curve set (which quantizes its input
/// itself).
pub open spec fn can_start(k: Seq<Option<U16Kind>>, tab: Seq<bool>, i: int) -> bool {
    quant_boundary(k, i) || (k[i] == Some(U16Kind::Curves) && tab[i])
}

/// The last stage of the longest run from `i`: extend while the next stage
/// is a 16-bit member behind a 16-bit boundary.
pub open spec fn run_end(k: Seq<Option<U16Kind>>, i: int) -> int
    decreases k.len() - i,
{
    if 0 <= i && i + 1 < k.len() && k[i + 1] is Some && quant_boundary(k, i + 1) {
        run_end(k, i + 1)
    } else {
        i
    }
}

/// Whether a run is formed at stage `i`.
pub open spec fn runs_at(k: Seq<Option<U16Kind>>, tab: Seq<bool>, ok: bool, i: int) -> bool {
    &&& k[i] is Some
    &&& can_start(k, tab, i)
    &&& ok
    &&& quant_boundary(k, run_end(k, i) + 1)
}

/// The plan from stage `i` on, left to right, each run as long as it goes.
pub open spec fn plan(k: Seq<Option<U16Kind>>, tab: Seq<bool>, ok: bool, i: int) -> Seq<Segment>
    decreases k.len() - i,
{
    if i < 0 || i >= k.len() {
        Seq::empty()
    } else if runs_at(k, tab, ok, i) && run_end(k, i) < k.len() {
        proof {
            lemma_run_end_bounds(k, i);
        }
        seq![Segment::Run { start: i as usize, end: run_end(k, i) as usize }] + plan(
            k,
            tab,
            ok,
            run_end(k, i) + 1,
        )
    } else {
        seq![Segment::Keep(i as usize)] + plan(k, tab, ok, i + 1)
    }
}

pub open spec fn has_run(p: Seq<Segment>) -> bool {
    exists|m: int| 0 <= m < p.len() && p[m] is Run
}

/// A run from `i` stays inside the stage list, its boundaries all carry
/// 16-bit values, and it stops where the next stage could not join.
pub proof fn lemma_run_end_bounds(k: Seq<Option<U16Kind>>, i: int)
    requires
        0 <= i < k.len(),
    ensures
        i <= run_end(k, i) < k.len(),
        forall|m: int| i < m <= run_end(k, i) ==> (#[trigger] k[m]) is Some,
        forall|m: int| i < m <= run_end(k, i) ==> #[trigger] quant_boundary(k, m),
        run_end(k, i) + 1 < k.len() ==> !(k[run_end(k, i) + 1] is Some && quant_boundary(
            k,
            run_end(k, i) + 1,
        )),
    decreases k.len() - i,
{
    if i + 1 < k.len() && k[i + 1] is Some && quant_boundary(k, i + 1) {
        lemma_run_end_bounds(k, i + 1);
        let e = run_end(k, i);
        assert(e == run_end(k, i + 1));
        assert forall|m: int| i < m <= e implies (#[trigger] k[m]) is Some by {
            if m > i + 1 {
                assert(i + 1 < m <= run_end(k, i + 1));
            }
        }
        assert forall|m: int| i < m <= e implies #[trigger] quant_boundary(k, m) by {
            if m > i + 1 {
                assert(i + 1 < m <= run_end(k, i + 1));
            }
        }
    } else {
        assert(run_end(k, i) == i);
    }
}

/// Fuse the maximal 16-bit runs of a stage list. `kinds[i]` tells whether
/// stage `i` can work on 16-bit words, `tabulated[i]` whether it is a wholly
/// tabulated curve set, and `roundtrip_ok` whether a word survives the trip
/// through float and back (no run is formed otherwise). Returns the plan,
/// whether any run was formed, and whether a run owns stage 0.
pub fn split_u16_runs(kinds: &[Option<U16Kind>], tabulated: &[bool], roundtrip_ok: bool) -> (r: (
    Vec<Segment>,
    bool,
    bool,
))
    requires
        tabulated@.len() == kinds@.len(),
    ensures
        r.0@ == plan(kinds@, tabulated@, roundtrip_ok, 0),
        r.1 == has_run(r.0@),
        r.2 == (r.0@.len() > 0 && r.0@[0] is Run),
{
    let n = kinds.len();
    let ghost k = kinds@;
    let ghost tab = tabulated@;
    let mut out: Vec<Segment> = Vec::new();
    let mut any_run = false;
    let mut leading_owns_first = false;
    let mut i: usize = 0;
    while i < n
        invariant
            i <= n,
            n == k.len(),
            k == kinds@,
            tab == tabulated@,
            tab.len() == n,
            out@ + plan(k, tab, roundtrip_ok, i as int) == plan(k, tab, roundtrip_ok, 0),
            any_run == has_run(out@),
            leading_owns_first == (out@.len() > 0 && out@[0] is Run),
            i == 0 <==> out@.len() == 0,
        decreases n - i,
    {
        let ghost before = out@;
        let start_ok = is_quant_boundary(kinds, i) || (kinds[i] == Some(U16Kind::Curves)
            && tabulated[i]);
        if kinds[i].is_some() && start_ok && roundtrip_ok {
            let mut j = i;
            while j + 1 < n && kinds[j + 1].is_some() && is_quant_boundary(kinds, j + 1)
                invariant
                    i <= j < n,
                    n == k.len(),
                    k == kinds@,
                    run_end(k, i as int) == run_end(k, j as int),
                decreases n - j,
            {
                j += 1;
            }
            proof {
                lemma_run_end_bounds(k, i as int);
            }
            if is_quant_boundary(kinds, j + 1) {
                out.push(Segment::Run { start: i, end: j });
                proof {
                    assert(plan(k, tab, roundtrip_ok, i as int) == seq![
                        Segment::Run { start: i, end: j },
                    ] + plan(k, tab, roundtrip_ok, j + 1));
                    assert(out@ + plan(k, tab, roundtrip_ok, j + 1) =~= before + plan(
                        k,
                        tab,
                        roundtrip_ok,
                        i as int,
                    ));
                    assert(out@[out@.len() - 1] is Run);
                }
                any_run = true;
                if i == 0 {
                    leading_owns_first = true;
                }
                i = j + 1;
                continue;
            }
        }
        proof {
            if runs_at(k, tab, roundtrip_ok, i as int) {
                lemma_run_end_bounds(k, i as int);
            }
            assert(plan(k, tab, roundtrip_ok, i as int) == seq![Segment::Keep(i)] + plan(
                k,
                tab,
                roundtrip_ok,
                i + 1,
            ));
        }
        out.push(Segment::Keep(i));
        proof {
            assert(out@ + plan(k, tab, roundtrip_ok, i + 1) =~= before + plan(
                k,
                tab,
                roundtrip_ok,
                i as int,
            ));
            if has_run(out@) {
                let m = choose|m: int| 0 <= m < out@.len() && out@[m] is Run;
                assert(m < before.len());
                assert(before[m] is Run);
            }
            if has_run(before) {
                let m = choose|m: int| 0 <= m < before.len() && before[m] is Run;
                assert(out@[m] is Run);
            }
        }
        i += 1;
    }
    assert(plan(k, tab, roundtrip_ok, n as int) =~= Seq::<Segment>::empty());
    assert(out@ =~= plan(k, tab, roundtrip_ok, 0));
    (out, any_run, leading_owns_first)
}

/// The segments of a plan tile the stages from `i` to the end, in order:
/// each starts where the previous one ended.
pub open spec fn tiles(p: Seq<Segment>, i: int, n: int) -> bool
    decreases p.len(),
{
    if p.len() == 0 {
        i == n
    } else {
        match p[0] {
            Segment::Run { start, end } => start == i && start <= end < n && tiles(
                p.drop_first(),
                end + 1,
                n,
            ),
            Segment::Keep(s) => s == i && i < n && tiles(p.drop_first(), i + 1, n),
        }
    }
}

/// Every run of the plan is sound: its stages all work on 16-bit words, it
/// starts at a 16-bit boundary or at a tabulated curve set, every boundary
/// inside it and its right edge carry 16-bit values, and it cannot be
/// extended by the next stage.
pub open spec fn sound_runs(k: Seq<Option<U16Kind>>, tab: Seq<bool>, p: Seq<Segment>) -> bool {
    forall|m: int|
        #![trigger p[m]]
        0 <= m < p.len() ==> match p[m] {
            Segment::Run { start, end } => {
                &&& can_start(k, tab, start as int)
                &&& forall|x: int| start <= x <= end ==> (#[trigger] k[x]) is Some
                &&& forall|x: int| start < x <= end ==> #[trigger] quant_boundary(k, x)
                &&& quant_boundary(k, end + 1)
                &&& end + 1 < k.len() ==> !(k[end + 1] is Some && quant_boundary(k, end + 1))
            },
            Segment::Keep(_) => true,
        }
}

/// The plan tiles the stage list, and a run never straddles a boundary
/// that carries a free float value.
pub proof fn lemma_plan_sound(k: Seq<Option<U16Kind>>, tab: Seq<bool>, ok: bool, i: int)
    requires
        tab.len() == k.len(),
        k.len() <= usize::MAX,
        0 <= i <= k.len(),
    ensures
        tiles(plan(k, tab, ok, i), i, k.len() as int),
        sound_runs(k, tab, plan(k, tab, ok, i)),
        !ok ==> !has_run(plan(k, tab, ok, i)),
    decreases k.len() - i,
{
    if i < k.len() {
        let p = plan(k, tab, ok, i);
        lemma_run_end_bounds(k, i);
        let e = run_end(k, i);
        if runs_at(k, tab, ok, i) && e < k.len() {
            lemma_plan_sound(k, tab, ok, e + 1);
            let rest = plan(k, tab, ok, e + 1);
            assert(p.drop_first() =~= rest);
            assert forall|m: int| 0 <= m < p.len() implies match #[trigger] p[m] {
                Segment::Run { start, end } => {
                    &&& can_start(k, tab, start as int)
                    &&& forall|x: int| start <= x <= end ==> (#[trigger] k[x]) is Some
                    &&& forall|x: int| start < x <= end ==> #[trigger] quant_boundary(k, x)
                    &&& quant_boundary(k, end + 1)
                    &&& end + 1 < k.len() ==> !(k[end + 1] is Some && quant_boundary(k, end + 1))
                },
                Segment::Keep(_) => true,
            } by {
                if m > 0 {
                    assert(p[m] == rest[m - 1]);
                } else {
                    assert(p[0] == Segment::Run { start: i as usize, end: e as usize });
                    assert forall|x: int| i <= x <= e implies (#[trigger] k[x]) is Some by {
                        if x > i {
                            assert(i < x <= run_end(k, i));
                        }
                    }
                }
            }
            assert(p[0] == Segment::Run { start: i as usize, end: e as usize });
            assert(tiles(p, i, k.len() as int));
        } else {
            lemma_plan_sound(k, tab, ok, i + 1);
            let rest = plan(k, tab, ok, i + 1);
            assert(p.drop_first() =~= rest);
            assert forall|m: int| 0 <= m < p.len() implies match #[trigger] p[m] {
                Segment::Run { start, end } => {
                    &&& can_start(k, tab, start as int)
                    &&& forall|x: int| start <= x <= end ==> (#[trigger] k[x]) is Some
                    &&& forall|x: int| start < x <= end ==> #[trigger] quant_boundary(k, x)
                    &&& quant_boundary(k, end + 1)
                    &&& end + 1 < k.len() ==> !(k[end + 1] is Some && quant_boundary(k, end + 1))
                },
                Segment::Keep(_) => true,
            } by {
                if m > 0 {
                    assert(p[m] == rest[m - 1]);
                }
            }
            assert(p[0] == Segment::Keep(i as usize));
            assert(tiles(p, i, k.len() as int));
            if !ok && has_run(p) {
                let m = choose|m: int| 0 <= m < p.len() && p[m] is Run;
                assert(p[m] == rest[m - 1]);
            }
        }
    } else {
        assert(plan(k, tab, ok, i) =~= Seq::<Segment>::empty());
    }
}

} // verus!
