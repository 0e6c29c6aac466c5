//! Group proofs in place of the proof bytes of single folds.
//!
//! A certificate may carry every fold with its own proof bytes, or a group for all of them, or a
//! marker without bytes that leaves the folds to direct checks. Where a group stands for the
//! folds, they may be left out and are then rebuilt from the proof they belong to.
use vstd::prelude::*;

use crate::field::Val;
use crate::fri_fold_air::{
    fold_step_ok, fold_verify_outcome, step_holds, verify_fri_fold_proof, verify_fri_fold_y_proof,
    FoldAxis, FriFoldAir, FriFoldStepProof,
};
use crate::fri_fold_bind::AggFriFoldBundle;
use crate::fri_fold_group::{
    append_steps, fold_group_verify_outcome, lemma_same_steps_verdict, same_step, same_steps,
    verify_fri_fold_group_proof, FriFoldGroupAir, FriFoldGroupProof, FRI_FOLD_GROUP_MAX_STEPS,
    FRI_FOLD_KIND_YX, MIXED_LOG_HEIGHT,
};
use crate::proof_system::verifier_ready;

verus! {

/// Version of the folds' encoding: with groups, the folds themselves are left out.
pub const LEAF_FRI_FOLD_V: u8 = 2;

/// The groups of a certificate.
#[derive(Debug, Clone, PartialEq, Eq)]
pub struct LeafFriFoldGroups {
    /// The first-layer folds, or all folds.
    pub fold_ys: Option<FriFoldGroupProof>,
    /// The commit-phase folds, in one group or one per height.
    pub fold_xs_by_log_h: Vec<FriFoldGroupProof>,
}

impl Default for LeafFriFoldGroups {
    fn default() -> (r: Self)
        ensures
            r.fold_ys is None,
            r.fold_xs_by_log_h@.len() == 0,
    {
        LeafFriFoldGroups { fold_ys: None, fold_xs_by_log_h: Vec::new() }
    }
}

/// Two steps that agree in everything but the proof bytes.
pub open spec fn same_fold(a: FriFoldStepProof, b: FriFoldStepProof) -> bool {
    &&& a.index == b.index
    &&& a.log_folded_height == b.log_folded_height
    &&& a.t_inv == b.t_inv
    &&& a.beta_limbs == b.beta_limbs
    &&& a.v0_limbs == b.v0_limbs
    &&& a.v1_limbs == b.v1_limbs
    &&& a.out_limbs == b.out_limbs
}

/// `b` is `a` with the proof bytes of every step removed.
pub open spec fn stripped(a: Seq<FriFoldStepProof>, b: Seq<FriFoldStepProof>) -> bool {
    a.len() == b.len() && forall|i: int|
        0 <= i < b.len() ==> same_fold(a[i], #[trigger] b[i]) && b[i].fold_stark@.len() == 0
}

/// Removes the proof bytes of every step.
pub fn strip_fold_starks(steps: &mut Vec<FriFoldStepProof>)
    ensures
        stripped(old(steps)@, final(steps)@),
{
    let ghost before = steps@;
    let n: usize = steps.len();
    let mut out: Vec<FriFoldStepProof> = Vec::new();
    let mut i: usize = 0;
    while i < n
        invariant
            i <= n,
            n == before.len(),
            steps@ == before,
            out@.len() == i,
            forall|j: int|
                0 <= j < i ==> same_fold(before[j], #[trigger] out@[j]) && out@[j].fold_stark@.len()
                    == 0,
        decreases n - i,
    {
        let s = &steps[i];
        out.push(
            FriFoldStepProof {
                index: s.index,
                log_folded_height: s.log_folded_height,
                t_inv: s.t_inv,
                beta_limbs: s.beta_limbs,
                v0_limbs: s.v0_limbs,
                v1_limbs: s.v1_limbs,
                out_limbs: s.out_limbs,
                fold_stark: Vec::new(),
            },
        );
        i += 1;
    }
    *steps = out;
}

/// Stripping twice is stripping once.
pub proof fn lemma_strip_idempotent(
    a: Seq<FriFoldStepProof>,
    b: Seq<FriFoldStepProof>,
    c: Seq<FriFoldStepProof>,
)
    requires
        stripped(a, b),
        stripped(b, c),
    ensures
        stripped(a, c),
        same_steps(b, c),
{
    assert forall|i: int| 0 <= i < c.len() implies same_fold(a[i], #[trigger] c[i]) && c[
        i
    ].fold_stark@.len() == 0 && same_step(b[i], c[i]) by {
        assert(same_fold(a[i], b[i]));
        assert(same_fold(b[i], c[i]));
        assert(b[i].fold_stark@ =~= c[i].fold_stark@);
    }
    assert forall|i: int| 0 <= i < b.len() implies same_step(#[trigger] b[i], c[i]) by {
        assert(same_fold(a[i], c[i]));
    }
}

/// Stripping changes no fold: a stripped step states what the step stated.
pub proof fn lemma_strip_keeps_folds(
    a: Seq<FriFoldStepProof>,
    b: Seq<FriFoldStepProof>,
    axis: FoldAxis,
    i: int,
)
    requires
        stripped(a, b),
        0 <= i < a.len(),
    ensures
        step_holds(axis, a[i]) == step_holds(axis, b[i]),
{
    assert(same_fold(a[i], b[i]));
}

/// The group covers all folds.
pub open spec fn covers_all(g: Option<FriFoldGroupProof>) -> bool {
    g matches Some(gy) && gy.kind == FRI_FOLD_KIND_YX
}

/// The folds were left out although groups stand for them.
pub open spec fn folds_left_out(ys: int, xs: int, groups: LeafFriFoldGroups) -> bool {
    ||| ys == 0 && groups.fold_ys is Some
    ||| xs == 0 && (groups.fold_xs_by_log_h@.len() > 0 || covers_all(groups.fold_ys))
}

fn left_out(ys: usize, xs: usize, groups: &LeafFriFoldGroups) -> (r: bool)
    ensures
        r == folds_left_out(ys as int, xs as int, *groups),
{
    if ys == 0 && groups.fold_ys.is_some() {
        return true;
    }
    if xs != 0 {
        return false;
    }
    if groups.fold_xs_by_log_h.len() > 0 {
        return true;
    }
    match &groups.fold_ys {
        Some(g) => g.kind == FRI_FOLD_KIND_YX,
        None => false,
    }
}

/// The folds to check: the given ones, or, where they were left out, those rebuilt from the
/// proof, without proof bytes.
pub open spec fn resolve_outcome<G: Fn() -> Result<AggFriFoldBundle, String>>(
    rebuild: G,
    fold_ys: Seq<FriFoldStepProof>,
    fold_xs: Seq<FriFoldStepProof>,
    groups: LeafFriFoldGroups,
    r: Result<(Vec<FriFoldStepProof>, Vec<FriFoldStepProof>), String>,
) -> bool {
    if folds_left_out(fold_ys.len() as int, fold_xs.len() as int, groups) {
        exists|b: Result<AggFriFoldBundle, String>| #[trigger]
            call_ensures(rebuild, (), b) && (match b {
                Ok(bundle) => r matches Ok(s) && stripped(bundle.fold_ys@, s.0@) && stripped(
                    bundle.fold_xs@,
                    s.1@,
                ),
                Err(e) => r == Err::<(Vec<FriFoldStepProof>, Vec<FriFoldStepProof>), String>(e),
            })
    } else {
        r matches Ok(s) && same_steps(s.0@, fold_ys) && same_steps(s.1@, fold_xs)
    }
}

/// The folds to check; `rebuild` makes them from the proof.
pub fn resolve_fri_fold_steps_for_groups<G: Fn() -> Result<AggFriFoldBundle, String>>(
    fold_ys: &[FriFoldStepProof],
    fold_xs: &[FriFoldStepProof],
    groups: &LeafFriFoldGroups,
    rebuild: &G,
) -> (r: Result<(Vec<FriFoldStepProof>, Vec<FriFoldStepProof>), String>)
    requires
        call_requires(*rebuild, ()),
    ensures
        resolve_outcome(*rebuild, fold_ys@, fold_xs@, *groups, r),
{
    if left_out(fold_ys.len(), fold_xs.len(), groups) {
        let b = rebuild();
        proof {
            assert(call_ensures(*rebuild, (), b));
        }
        match b {
            Ok(bundle) => {
                let mut ys = bundle.fold_ys;
                let mut xs = bundle.fold_xs;
                strip_fold_starks(&mut ys);
                strip_fold_starks(&mut xs);
                Ok((ys, xs))
            },
            Err(e) => Err(e),
        }
    } else {
        let mut ys: Vec<FriFoldStepProof> = Vec::new();
        let mut xs: Vec<FriFoldStepProof> = Vec::new();
        append_steps(&mut ys, fold_ys);
        append_steps(&mut xs, fold_xs);
        proof {
            assert forall|i: int| 0 <= i < ys@.len() implies same_step(
                #[trigger] ys@[i],
                fold_ys@[i],
            ) by {
                assert(ys@[0 + i] == ys@[i]);
            }
            assert forall|i: int| 0 <= i < xs@.len() implies same_step(
                #[trigger] xs@[i],
                fold_xs@[i],
            ) by {
                assert(xs@[0 + i] == xs@[i]);
            }
        }
        Ok((ys, xs))
    }
}

/// Groups for a bundle's folds were not made.
#[derive(Debug, Clone, Copy, PartialEq, Eq)]
pub enum FoldMarkerError {
    TooManySteps(u128),
}

/// A group without proof bytes that stands for all folds of a bundle.
pub open spec fn is_marker(g: FriFoldGroupProof, total: int) -> bool {
    &&& g.kind == FRI_FOLD_KIND_YX
    &&& g.step_count == total
    &&& g.log_folded_height == MIXED_LOG_HEIGHT
    &&& g.group_stark@.len() == 0
}

/// What replacing a bundle's proof bytes returns.
pub open spec fn marker_outcome(
    before: AggFriFoldBundle,
    after: AggFriFoldBundle,
    r: Result<LeafFriFoldGroups, FoldMarkerError>,
) -> bool {
    let total = before.fold_ys@.len() + before.fold_xs@.len();
    if total == 0 {
        &&& after == before
        &&& r matches Ok(g)
        &&& g.fold_ys is None
        &&& g.fold_xs_by_log_h@.len() == 0
    } else if total > FRI_FOLD_GROUP_MAX_STEPS {
        &&& after == before
        &&& r matches Err(FoldMarkerError::TooManySteps(n))
        &&& n == total
    } else {
        &&& stripped(before.fold_ys@, after.fold_ys@)
        &&& stripped(before.fold_xs@, after.fold_xs@)
        &&& r matches Ok(g)
        &&& g.fold_ys matches Some(m)
        &&& is_marker(m, total as int)
        &&& g.fold_xs_by_log_h@.len() == 0
    }
}

/// Replaces a bundle's proof bytes by a marker.
pub fn apply_leaf_fri_fold_m4c_folds(bundle: &mut AggFriFoldBundle) -> (r: Result<
    LeafFriFoldGroups,
    FoldMarkerError,
>)
    ensures
        marker_outcome(*old(bundle), *final(bundle), r),
{
    apply_leaf_fri_fold_m4c_folds_with_queries(bundle, crate::devnet::DEVNET_FRI_NUM_QUERIES)
}

/// Replaces a bundle's proof bytes by a marker; the number of queries does not matter.
pub fn apply_leaf_fri_fold_m4c_folds_with_queries(
    bundle: &mut AggFriFoldBundle,
    num_queries: usize,
) -> (r: Result<LeafFriFoldGroups, FoldMarkerError>)
    ensures
        marker_outcome(*old(bundle), *final(bundle), r),
{
    let total: u128 = bundle.fold_ys.len() as u128 + bundle.fold_xs.len() as u128;
    if total == 0 {
        return Ok(LeafFriFoldGroups::default());
    }
    if total > FRI_FOLD_GROUP_MAX_STEPS as u128 {
        return Err(FoldMarkerError::TooManySteps(total));
    }
    strip_fold_starks(&mut bundle.fold_ys);
    strip_fold_starks(&mut bundle.fold_xs);
    let marker = FriFoldGroupProof {
        kind: FRI_FOLD_KIND_YX,
        step_count: total as u32,
        log_folded_height: MIXED_LOG_HEIGHT,
        group_stark: Vec::new(),
    };
    Ok(LeafFriFoldGroups { fold_ys: Some(marker), fold_xs_by_log_h: Vec::new() })
}

/// Why folds are not accepted.
#[derive(Debug, Clone, PartialEq, Eq)]
pub enum FoldGroupsError {
    /// The folds could not be rebuilt.
    Rebuild(String),
    /// The folds are not those of the proof.
    Bind(String),
    YxCount,
    YxNative(FoldAxis, usize),
    YxResidual,
    YxGroup,
    YNative(usize),
    YGroup,
    YResidual,
    LegacyYNative(usize),
    LegacyYStark(usize),
    LegacyXNative(usize),
    LegacyXStark(usize),
    XGroupCount(usize),
    /// Group and step of a failed direct check.
    XNative(usize, usize),
    XGroup(usize),
    XCoverage,
    XResidual,
}

/// The steps a commit-phase group stands for: all, or those of its height.
pub open spec fn in_group(s: FriFoldStepProof, g: FriFoldGroupProof) -> bool {
    g.log_folded_height == MIXED_LOG_HEIGHT || s.log_folded_height == g.log_folded_height
}

/// The steps of a group, in order.
pub open spec fn group_steps(xs: Seq<FriFoldStepProof>, g: FriFoldGroupProof) -> Seq<
    FriFoldStepProof,
> {
    xs.filter(|s: FriFoldStepProof| in_group(s, g))
}

/// Copies of the steps of a group, if they are as many as it says.
fn collect_xs_for_group(fold_xs: &[FriFoldStepProof], group: &FriFoldGroupProof) -> (r: Option<
    Vec<FriFoldStepProof>,
>)
    ensures
        ({
            let sel = group_steps(fold_xs@, *group);
            match r {
                Some(v) => sel.len() as u32 == group.step_count && same_steps(v@, sel),
                None => sel.len() as u32 != group.step_count,
            }
        }),
{
    let ghost pred = |s: FriFoldStepProof| in_group(s, *group);
    let mut out: Vec<FriFoldStepProof> = Vec::new();
    let mut i: usize = 0;
    proof {
        assert(fold_xs@.take(0).filter(pred) =~= Seq::<FriFoldStepProof>::empty()) by {
            reveal(Seq::filter);
        }
    }
    while i < fold_xs.len()
        invariant
            i <= fold_xs.len(),
            pred == (|s: FriFoldStepProof| in_group(s, *group)),
            same_steps(out@, fold_xs@.take(i as int).filter(pred)),
        decreases fold_xs.len() - i,
    {
        let mixed: bool = group.log_folded_height == MIXED_LOG_HEIGHT;
        let ghost t = fold_xs@.take(i as int);
        let ghost before = out@;
        proof {
            assert(fold_xs@.take(i + 1) =~= t.push(fold_xs@[i as int]));
            lemma_filter_push(t, fold_xs@[i as int], pred);
        }
        if mixed || fold_xs[i].log_folded_height == group.log_folded_height {
            out.push(crate::fri_fold_group::copy_step(&fold_xs[i]));
            proof {
                let sel = fold_xs@.take(i + 1).filter(pred);
                assert forall|j: int| 0 <= j < out@.len() implies same_step(
                    #[trigger] out@[j],
                    sel[j],
                ) by {
                    if j < before.len() {
                        assert(out@[j] == before[j]);
                        assert(sel[j] == t.filter(pred)[j]);
                    }
                }
            }
        }
        i += 1;
    }
    proof {
        assert(fold_xs@.take(fold_xs@.len() as int) =~= fold_xs@);
    }
    if out.len() as u32 != group.step_count {
        return None;
    }
    Some(out)
}

proof fn lemma_filter_push<A>(s: Seq<A>, x: A, pred: spec_fn(A) -> bool)
    ensures
        s.push(x).filter(pred) == if pred(x) {
            s.filter(pred).push(x)
        } else {
            s.filter(pred)
        },
{
    reveal(Seq::filter);
    assert(s.push(x).drop_last() =~= s);
}

/// No step carries proof bytes.
pub open spec fn no_bytes(steps: Seq<FriFoldStepProof>) -> bool {
    forall|i: int| 0 <= i < steps.len() ==> (#[trigger] steps[i]).fold_stark@.len() == 0
}

fn check_no_bytes(steps: &[FriFoldStepProof]) -> (r: bool)
    ensures
        r == no_bytes(steps@),
{
    let mut i: usize = 0;
    while i < steps.len()
        invariant
            i <= steps.len(),
            forall|j: int| 0 <= j < i ==> (#[trigger] steps@[j]).fold_stark@.len() == 0,
        decreases steps.len() - i,
    {
        if steps[i].fold_stark.len() != 0 {
            return false;
        }
        i += 1;
    }
    true
}

/// The first step that states no fold on `axis`.
pub open spec fn first_bad(axis: FoldAxis, steps: Seq<FriFoldStepProof>, r: Option<usize>) -> bool {
    match r {
        Some(i) => i < steps.len() && !step_holds(axis, steps[i as int]) && forall|j: int|
            0 <= j < i ==> step_holds(axis, #[trigger] steps[j]),
        None => forall|j: int| 0 <= j < steps.len() ==> step_holds(axis, #[trigger] steps[j]),
    }
}

fn find_bad(axis: FoldAxis, steps: &[FriFoldStepProof]) -> (r: Option<usize>)
    ensures
        first_bad(axis, steps@, r),
{
    let mut i: usize = 0;
    while i < steps.len()
        invariant
            i <= steps.len(),
            forall|j: int| 0 <= j < i ==> step_holds(axis, #[trigger] steps@[j]),
        decreases steps.len() - i,
    {
        if !fold_step_ok(axis, &steps[i]) {
            return Some(i);
        }
        i += 1;
    }
    None
}

/// Checking a step alone says `v`: directly without proof bytes, else by the verifier.
pub open spec fn lone_step_says<W: Fn(&FriFoldAir, &[Val], &[u8]) -> bool>(
    fold_verifier: W,
    axis: FoldAxis,
    s: FriFoldStepProof,
    v: bool,
) -> bool {
    if s.fold_stark@.len() == 0 {
        v == step_holds(axis, s)
    } else {
        fold_verify_outcome(fold_verifier, axis, s, v)
    }
}

/// The outcome of checking steps one by one: nothing where all pass, else the first that does
/// not and whether it carried proof bytes.
pub open spec fn lone_steps_outcome<W: Fn(&FriFoldAir, &[Val], &[u8]) -> bool>(
    fold_verifier: W,
    axis: FoldAxis,
    steps: Seq<FriFoldStepProof>,
    r: Option<(usize, bool)>,
) -> bool {
    match r {
        Some((i, bytes)) => {
            &&& i < steps.len()
            &&& bytes == (steps[i as int].fold_stark@.len() > 0)
            &&& lone_step_says(fold_verifier, axis, steps[i as int], false)
            &&& forall|j: int|
                0 <= j < i ==> lone_step_says(fold_verifier, axis, #[trigger] steps[j], true)
        },
        None => forall|j: int|
            0 <= j < steps.len() ==> lone_step_says(fold_verifier, axis, #[trigger] steps[j], true),
    }
}

fn check_lone_steps<W: Fn(&FriFoldAir, &[Val], &[u8]) -> bool>(
    axis: FoldAxis,
    steps: &[FriFoldStepProof],
    fold_verifier: &W,
) -> (r: Option<(usize, bool)>)
    requires
        verifier_ready::<FriFoldAir, W>(*fold_verifier),
    ensures
        lone_steps_outcome(*fold_verifier, axis, steps@, r),
{
    let mut i: usize = 0;
    while i < steps.len()
        invariant
            i <= steps.len(),
            verifier_ready::<FriFoldAir, W>(*fold_verifier),
            forall|j: int|
                0 <= j < i ==> lone_step_says(*fold_verifier, axis, #[trigger] steps@[j], true),
        decreases steps.len() - i,
    {
        let s = &steps[i];
        if s.fold_stark.len() == 0 {
            if !fold_step_ok(axis, s) {
                return Some((i, false));
            }
        } else {
            let ok = match axis {
                FoldAxis::Y => verify_fri_fold_y_proof(s, fold_verifier),
                FoldAxis::X => verify_fri_fold_proof(s, fold_verifier),
            };
            if !ok {
                return Some((i, true));
            }
        }
        i += 1;
    }
    None
}

/// What checking a group that covers all folds returns.
pub open spec fn yx_outcome<V: Fn(&FriFoldGroupAir, &[Val], &[u8]) -> bool>(
    group_verifier: V,
    ys: Seq<FriFoldStepProof>,
    xs: Seq<FriFoldStepProof>,
    g: FriFoldGroupProof,
    r: Result<(), FoldGroupsError>,
) -> bool {
    let residual = if no_bytes(ys + xs) {
        Ok::<(), FoldGroupsError>(())
    } else {
        Err::<(), FoldGroupsError>(FoldGroupsError::YxResidual)
    };
    if (ys + xs).len() as u32 != g.step_count {
        r == Err::<(), FoldGroupsError>(FoldGroupsError::YxCount)
    } else if g.group_stark@.len() == 0 {
        exists|by: Option<usize>, bx: Option<usize>|
            #![trigger first_bad(FoldAxis::Y, ys, by), first_bad(FoldAxis::X, xs, bx)]
            {
                &&& first_bad(FoldAxis::Y, ys, by)
                &&& first_bad(FoldAxis::X, xs, bx)
                &&& r == (match (by, bx) {
                    (Some(i), _) => Err::<(), FoldGroupsError>(
                        FoldGroupsError::YxNative(FoldAxis::Y, i),
                    ),
                    (None, Some(i)) => Err::<(), FoldGroupsError>(
                        FoldGroupsError::YxNative(FoldAxis::X, i),
                    ),
                    (None, None) => residual,
                })
            }
    } else {
        exists|v: bool| #[trigger]
            fold_group_verify_outcome(group_verifier, ys + xs, g, v) && r == (if v {
                residual
            } else {
                Err::<(), FoldGroupsError>(FoldGroupsError::YxGroup)
            })
    }
}

fn bind_yx<V: Fn(&FriFoldGroupAir, &[Val], &[u8]) -> bool>(
    fold_ys: &[FriFoldStepProof],
    fold_xs: &[FriFoldStepProof],
    g: &FriFoldGroupProof,
    group_verifier: &V,
) -> (r: Result<(), FoldGroupsError>)
    requires
        verifier_ready::<FriFoldGroupAir, V>(*group_verifier),
    ensures
        yx_outcome(*group_verifier, fold_ys@, fold_xs@, *g, r),
{
    let ghost all = fold_ys@ + fold_xs@;
    let total: u128 = fold_ys.len() as u128 + fold_xs.len() as u128;
    if total as u32 != g.step_count {
        return Err(FoldGroupsError::YxCount);
    }
    if g.group_stark.len() == 0 {
        let by = find_bad(FoldAxis::Y, fold_ys);
        let bx = find_bad(FoldAxis::X, fold_xs);
        proof {
            assert(first_bad(FoldAxis::Y, fold_ys@, by) && first_bad(FoldAxis::X, fold_xs@, bx));
        }
        if let Some(i) = by {
            return Err(FoldGroupsError::YxNative(FoldAxis::Y, i));
        }
        if let Some(i) = bx {
            return Err(FoldGroupsError::YxNative(FoldAxis::X, i));
        }
    } else {
        let mut steps: Vec<FriFoldStepProof> = Vec::new();
        append_steps(&mut steps, fold_ys);
        let ghost first = steps@;
        append_steps(&mut steps, fold_xs);
        proof {
            assert forall|i: int| 0 <= i < steps@.len() implies same_step(
                #[trigger] steps@[i],
                all[i],
            ) by {
                if i < fold_ys@.len() {
                    assert(steps@[i] == first[i]);
                    assert(first[0 + i] == first[i]);
                } else {
                    let j: int = i - fold_ys@.len();
                    assert(steps@[first.len() + j] == steps@[i]);
                }
            }
        }
        let v = verify_fri_fold_group_proof(steps.as_slice(), g, group_verifier);
        proof {
            lemma_same_steps_verdict(*group_verifier, steps@, all, *g, v);
        }
        if !v {
            return Err(FoldGroupsError::YxGroup);
        }
    }
    let clean = check_no_bytes(fold_ys) && check_no_bytes(fold_xs);
    proof {
        assert(no_bytes(all) == (no_bytes(fold_ys@) && no_bytes(fold_xs@))) by {
            if no_bytes(all) {
                assert forall|i: int| 0 <= i < fold_ys@.len() implies (#[trigger] fold_ys@[
                    i
                ]).fold_stark@.len() == 0 by {
                    assert(all[i] == fold_ys@[i]);
                }
                assert forall|i: int| 0 <= i < fold_xs@.len() implies (#[trigger] fold_xs@[
                    i
                ]).fold_stark@.len() == 0 by {
                    assert(all[fold_ys@.len() + i] == fold_xs@[i]);
                }
            }
        }
    }
    if !clean {
        return Err(FoldGroupsError::YxResidual);
    }
    Ok(())
}

/// What checking the first-layer folds returns.
pub open spec fn y_outcome<
    V: Fn(&FriFoldGroupAir, &[Val], &[u8]) -> bool,
    W: Fn(&FriFoldAir, &[Val], &[u8]) -> bool,
>(
    group_verifier: V,
    fold_verifier: W,
    ys: Seq<FriFoldStepProof>,
    g: Option<FriFoldGroupProof>,
    r: Result<(), FoldGroupsError>,
) -> bool {
    match g {
        Some(gy) => {
            let residual = if no_bytes(ys) {
                Ok::<(), FoldGroupsError>(())
            } else {
                Err::<(), FoldGroupsError>(FoldGroupsError::YResidual)
            };
            if gy.group_stark@.len() == 0 {
                exists|b: Option<usize>| #[trigger]
                    first_bad(FoldAxis::Y, ys, b) && r == (match b {
                        Some(i) => Err::<(), FoldGroupsError>(FoldGroupsError::YNative(i)),
                        None => residual,
                    })
            } else {
                exists|v: bool| #[trigger]
                    fold_group_verify_outcome(group_verifier, ys, gy, v) && r == (if v {
                        residual
                    } else {
                        Err::<(), FoldGroupsError>(FoldGroupsError::YGroup)
                    })
            }
        },
        None => exists|b: Option<(usize, bool)>| #[trigger]
            lone_steps_outcome(fold_verifier, FoldAxis::Y, ys, b) && r == (match b {
                Some((i, true)) => Err::<(), FoldGroupsError>(FoldGroupsError::LegacyYStark(i)),
                Some((i, false)) => Err::<(), FoldGroupsError>(FoldGroupsError::LegacyYNative(i)),
                None => Ok::<(), FoldGroupsError>(()),
            }),
    }
}

fn bind_y<
    V: Fn(&FriFoldGroupAir, &[Val], &[u8]) -> bool,
    W: Fn(&FriFoldAir, &[Val], &[u8]) -> bool,
>(
    fold_ys: &[FriFoldStepProof],
    g: &Option<FriFoldGroupProof>,
    group_verifier: &V,
    fold_verifier: &W,
) -> (r: Result<(), FoldGroupsError>)
    requires
        verifier_ready::<FriFoldGroupAir, V>(*group_verifier),
        verifier_ready::<FriFoldAir, W>(*fold_verifier),
    ensures
        y_outcome(*group_verifier, *fold_verifier, fold_ys@, *g, r),
{
    match g {
        Some(gy) => {
            if gy.group_stark.len() == 0 {
                let b = find_bad(FoldAxis::Y, fold_ys);
                proof {
                    assert(first_bad(FoldAxis::Y, fold_ys@, b));
                }
                if let Some(i) = b {
                    return Err(FoldGroupsError::YNative(i));
                }
            } else {
                let v = verify_fri_fold_group_proof(fold_ys, gy, group_verifier);
                proof {
                    assert(fold_group_verify_outcome(*group_verifier, fold_ys@, *gy, v));
                }
                if !v {
                    return Err(FoldGroupsError::YGroup);
                }
            }
            if !check_no_bytes(fold_ys) {
                return Err(FoldGroupsError::YResidual);
            }
            Ok(())
        },
        None => {
            let b = check_lone_steps(FoldAxis::Y, fold_ys, fold_verifier);
            proof {
                assert(lone_steps_outcome(*fold_verifier, FoldAxis::Y, fold_ys@, b));
            }
            match b {
                Some((i, bytes)) => {
                    if bytes {
                        Err(FoldGroupsError::LegacyYStark(i))
                    } else {
                        Err(FoldGroupsError::LegacyYNative(i))
                    }
                },
                None => Ok(()),
            }
        },
    }
}

/// Checking commit-phase group `k` gives `e` (nothing where it passes).
pub open spec fn x_group_says<V: Fn(&FriFoldGroupAir, &[Val], &[u8]) -> bool>(
    group_verifier: V,
    xs: Seq<FriFoldStepProof>,
    g: FriFoldGroupProof,
    k: int,
    e: Option<FoldGroupsError>,
) -> bool {
    let sel = group_steps(xs, g);
    if sel.len() as u32 != g.step_count {
        e == Some(FoldGroupsError::XGroupCount(k as usize))
    } else if g.group_stark@.len() == 0 {
        exists|b: Option<usize>| #[trigger]
            first_bad(FoldAxis::X, sel, b) && e == (match b {
                Some(i) => Some(FoldGroupsError::XNative(k as usize, i)),
                None => None,
            })
    } else {
        exists|v: bool| #[trigger]
            fold_group_verify_outcome(group_verifier, sel, g, v) && e == (if v {
                None
            } else {
                Some(FoldGroupsError::XGroup(k as usize))
            })
    }
}

/// The number of steps the first `n` groups stand for.
pub open spec fn covered_steps(xs: Seq<FriFoldStepProof>, gs: Seq<FriFoldGroupProof>, n: nat) -> int
    decreases n,
{
    if n == 0 {
        0
    } else {
        covered_steps(xs, gs, (n - 1) as nat) + group_steps(xs, gs[n - 1]).len()
    }
}

/// What checking commit-phase groups returns.
pub open spec fn x_groups_outcome<V: Fn(&FriFoldGroupAir, &[Val], &[u8]) -> bool>(
    group_verifier: V,
    xs: Seq<FriFoldStepProof>,
    gs: Seq<FriFoldGroupProof>,
    r: Result<(), FoldGroupsError>,
) -> bool {
    ||| exists|k: int| #![trigger gs[k]]
        {
            &&& 0 <= k < gs.len()
            &&& r matches Err(e)
            &&& x_group_says(group_verifier, xs, gs[k], k, Some(e))
            &&& forall|j: int|
                0 <= j < k ==> x_group_says(group_verifier, xs, #[trigger] gs[j], j, None)
        }
    ||| {
        &&& forall|j: int|
            0 <= j < gs.len() ==> x_group_says(group_verifier, xs, #[trigger] gs[j], j, None)
        &&& r == (if covered_steps(xs, gs, gs.len()) != xs.len() {
            Err::<(), FoldGroupsError>(FoldGroupsError::XCoverage)
        } else if !no_bytes(xs) {
            Err::<(), FoldGroupsError>(FoldGroupsError::XResidual)
        } else {
            Ok::<(), FoldGroupsError>(())
        })
    }
}

/// Checks one commit-phase group; gives the number of its steps.
fn check_x_group<V: Fn(&FriFoldGroupAir, &[Val], &[u8]) -> bool>(
    fold_xs: &[FriFoldStepProof],
    g: &FriFoldGroupProof,
    k: usize,
    group_verifier: &V,
) -> (r: Result<usize, FoldGroupsError>)
    requires
        verifier_ready::<FriFoldGroupAir, V>(*group_verifier),
    ensures
        match r {
            Ok(n) => n == group_steps(fold_xs@, *g).len() && x_group_says(
                *group_verifier,
                fold_xs@,
                *g,
                k as int,
                None,
            ),
            Err(e) => x_group_says(*group_verifier, fold_xs@, *g, k as int, Some(e)),
        },
{
    let owned = match collect_xs_for_group(fold_xs, g) {
        Some(v) => v,
        None => {
            return Err(FoldGroupsError::XGroupCount(k));
        },
    };
    let ghost sel = group_steps(fold_xs@, *g);
    if g.group_stark.len() == 0 {
        let b = find_bad(FoldAxis::X, owned.as_slice());
        proof {
            assert forall|i: int| 0 <= i < sel.len() implies step_holds(
                FoldAxis::X,
                #[trigger] sel[i],
            ) == step_holds(FoldAxis::X, owned@[i]) by {
                assert(same_step(owned@[i], sel[i]));
            }
            assert(first_bad(FoldAxis::X, sel, b));
        }
        if let Some(i) = b {
            return Err(FoldGroupsError::XNative(k, i));
        }
    } else {
        let v = verify_fri_fold_group_proof(owned.as_slice(), g, group_verifier);
        proof {
            lemma_same_steps_verdict(*group_verifier, owned@, sel, *g, v);
        }
        if !v {
            return Err(FoldGroupsError::XGroup(k));
        }
    }
    Ok(owned.len())
}

fn bind_x_groups<V: Fn(&FriFoldGroupAir, &[Val], &[u8]) -> bool>(
    fold_xs: &[FriFoldStepProof],
    gs: &Vec<FriFoldGroupProof>,
    group_verifier: &V,
) -> (r: Result<(), FoldGroupsError>)
    requires
        verifier_ready::<FriFoldGroupAir, V>(*group_verifier),
    ensures
        x_groups_outcome(*group_verifier, fold_xs@, gs@, r),
{
    let total: usize = fold_xs.len();
    let mut covered: u128 = 0;
    let mut k: usize = 0;
    while k < gs.len()
        invariant
            k <= gs.len(),
            total == fold_xs@.len(),
            verifier_ready::<FriFoldGroupAir, V>(*group_verifier),
            covered == covered_steps(fold_xs@, gs@, k as nat),
            covered <= k * total,
            forall|j: int|
                0 <= j < k ==> x_group_says(*group_verifier, fold_xs@, #[trigger] gs@[j], j, None),
        decreases gs.len() - k,
    {
        match check_x_group(fold_xs, &gs[k], k, group_verifier) {
            Ok(n) => {
                proof {
                    lemma_filter_len(fold_xs@, |s: FriFoldStepProof| in_group(s, gs@[k as int]));
                    assert(n <= total);
                    assert((k + 1) * total == k * total + total) by (nonlinear_arith);
                    assert((k + 1) * total <= 0xffff_ffff_ffff_ffff * 0xffff_ffff_ffff_ffff)
                        by (nonlinear_arith)
                        requires
                            0 <= k + 1 <= 0xffff_ffff_ffff_ffff,
                            0 <= total <= 0xffff_ffff_ffff_ffff,
                    ;
                }
                covered = covered + n as u128;
            },
            Err(e) => {
                proof {
                    assert(gs@[k as int] == gs@[k as int]);
                }
                return Err(e);
            },
        }
        k += 1;
    }
    if covered != total as u128 {
        return Err(FoldGroupsError::XCoverage);
    }
    if !check_no_bytes(fold_xs) {
        return Err(FoldGroupsError::XResidual);
    }
    Ok(())
}

proof fn lemma_filter_len<A>(s: Seq<A>, pred: spec_fn(A) -> bool)
    ensures
        s.filter(pred).len() <= s.len(),
    decreases s.len(),
{
    reveal(Seq::filter);
    if s.len() > 0 {
        lemma_filter_len(s.drop_last(), pred);
    }
}

/// What checking the commit-phase folds returns.
pub open spec fn x_outcome<
    V: Fn(&FriFoldGroupAir, &[Val], &[u8]) -> bool,
    W: Fn(&FriFoldAir, &[Val], &[u8]) -> bool,
>(
    group_verifier: V,
    fold_verifier: W,
    xs: Seq<FriFoldStepProof>,
    gs: Seq<FriFoldGroupProof>,
    r: Result<(), FoldGroupsError>,
) -> bool {
    if gs.len() == 0 {
        exists|b: Option<(usize, bool)>| #[trigger]
            lone_steps_outcome(fold_verifier, FoldAxis::X, xs, b) && r == (match b {
                Some((i, true)) => Err::<(), FoldGroupsError>(FoldGroupsError::LegacyXStark(i)),
                Some((i, false)) => Err::<(), FoldGroupsError>(FoldGroupsError::LegacyXNative(i)),
                None => Ok::<(), FoldGroupsError>(()),
            })
    } else {
        x_groups_outcome(group_verifier, xs, gs, r)
    }
}

/// What checking folds against their groups returns.
pub open spec fn groups_outcome<
    V: Fn(&FriFoldGroupAir, &[Val], &[u8]) -> bool,
    W: Fn(&FriFoldAir, &[Val], &[u8]) -> bool,
>(
    group_verifier: V,
    fold_verifier: W,
    ys: Seq<FriFoldStepProof>,
    xs: Seq<FriFoldStepProof>,
    groups: LeafFriFoldGroups,
    r: Result<(), FoldGroupsError>,
) -> bool {
    if covers_all(groups.fold_ys) {
        yx_outcome(group_verifier, ys, xs, groups.fold_ys->0, r)
    } else {
        exists|ry: Result<(), FoldGroupsError>| #[trigger]
            y_outcome(group_verifier, fold_verifier, ys, groups.fold_ys, ry) && (match ry {
                Err(e) => r == Err::<(), FoldGroupsError>(e),
                Ok(_) => x_outcome(
                    group_verifier,
                    fold_verifier,
                    xs,
                    groups.fold_xs_by_log_h@,
                    r,
                ),
            })
    }
}

/// Checks folds against their groups, or one by one where there are none.
pub fn check_folds_with_groups<
    V: Fn(&FriFoldGroupAir, &[Val], &[u8]) -> bool,
    W: Fn(&FriFoldAir, &[Val], &[u8]) -> bool,
>(
    fold_ys: &[FriFoldStepProof],
    fold_xs: &[FriFoldStepProof],
    groups: &LeafFriFoldGroups,
    group_verifier: &V,
    fold_verifier: &W,
) -> (r: Result<(), FoldGroupsError>)
    requires
        verifier_ready::<FriFoldGroupAir, V>(*group_verifier),
        verifier_ready::<FriFoldAir, W>(*fold_verifier),
    ensures
        groups_outcome(*group_verifier, *fold_verifier, fold_ys@, fold_xs@, *groups, r),
{
    if let Some(gy) = &groups.fold_ys {
        if gy.kind == FRI_FOLD_KIND_YX {
            return bind_yx(fold_ys, fold_xs, gy, group_verifier);
        }
    }
    let ry = bind_y(fold_ys, &groups.fold_ys, group_verifier, fold_verifier);
    proof {
        assert(y_outcome(*group_verifier, *fold_verifier, fold_ys@, groups.fold_ys, ry));
    }
    if let Err(e) = ry {
        return Err(e);
    }
    if groups.fold_xs_by_log_h.len() > 0 {
        return bind_x_groups(fold_xs, &groups.fold_xs_by_log_h, group_verifier);
    }
    let b = check_lone_steps(FoldAxis::X, fold_xs, fold_verifier);
    proof {
        assert(lone_steps_outcome(*fold_verifier, FoldAxis::X, fold_xs@, b));
    }
    match b {
        Some((i, bytes)) => {
            if bytes {
                Err(FoldGroupsError::LegacyXStark(i))
            } else {
                Err(FoldGroupsError::LegacyXNative(i))
            }
        },
        None => Ok(()),
    }
}

/// `b` is what `bind` answered on these folds.
pub open spec fn bind_says<
    B: Fn(&[FriFoldStepProof], &[FriFoldStepProof]) -> Result<(), String>,
>(bind: B, ys: Seq<FriFoldStepProof>, xs: Seq<FriFoldStepProof>, b: Result<(), String>) -> bool {
    exists|y: &[FriFoldStepProof], x: &[FriFoldStepProof]| #[trigger]
        call_ensures(bind, (y, x), b) && y@ == ys && x@ == xs
}

/// What binding folds to their proof and groups returns.
pub open spec fn fold_bind_outcome<
    G: Fn() -> Result<AggFriFoldBundle, String>,
    B: Fn(&[FriFoldStepProof], &[FriFoldStepProof]) -> Result<(), String>,
    V: Fn(&FriFoldGroupAir, &[Val], &[u8]) -> bool,
    W: Fn(&FriFoldAir, &[Val], &[u8]) -> bool,
>(
    rebuild: G,
    bind: B,
    group_verifier: V,
    fold_verifier: W,
    ys: Seq<FriFoldStepProof>,
    xs: Seq<FriFoldStepProof>,
    groups: LeafFriFoldGroups,
    r: Result<(), FoldGroupsError>,
) -> bool {
    exists|s: Result<(Vec<FriFoldStepProof>, Vec<FriFoldStepProof>), String>| #[trigger]
        resolve_outcome(rebuild, ys, xs, groups, s) && (match s {
            Err(e) => r == Err::<(), FoldGroupsError>(FoldGroupsError::Rebuild(e)),
            Ok(f) => exists|b: Result<(), String>| #[trigger]
                bind_says(bind, f.0@, f.1@, b) && (match b {
                    Err(e) => r == Err::<(), FoldGroupsError>(FoldGroupsError::Bind(e)),
                    Ok(_) => groups_outcome(
                        group_verifier,
                        fold_verifier,
                        f.0@,
                        f.1@,
                        groups,
                        r,
                    ),
                }),
        })
}

/// Binds folds to the proof they belong to and checks them against their groups. `rebuild`
/// makes the folds from the proof where they were left out; `bind` compares folds with the
/// proof.
pub fn bind_fri_fold_with_groups<
    G: Fn() -> Result<AggFriFoldBundle, String>,
    B: Fn(&[FriFoldStepProof], &[FriFoldStepProof]) -> Result<(), String>,
    V: Fn(&FriFoldGroupAir, &[Val], &[u8]) -> bool,
    W: Fn(&FriFoldAir, &[Val], &[u8]) -> bool,
>(
    fold_ys: &[FriFoldStepProof],
    fold_xs: &[FriFoldStepProof],
    groups: &LeafFriFoldGroups,
    rebuild: &G,
    bind: &B,
    group_verifier: &V,
    fold_verifier: &W,
) -> (r: Result<(), FoldGroupsError>)
    requires
        call_requires(*rebuild, ()),
        forall|y: &[FriFoldStepProof], x: &[FriFoldStepProof]| call_requires(*bind, (y, x)),
        verifier_ready::<FriFoldGroupAir, V>(*group_verifier),
        verifier_ready::<FriFoldAir, W>(*fold_verifier),
    ensures
        fold_bind_outcome(
            *rebuild,
            *bind,
            *group_verifier,
            *fold_verifier,
            fold_ys@,
            fold_xs@,
            *groups,
            r,
        ),
{
    let s = resolve_fri_fold_steps_for_groups(fold_ys, fold_xs, groups, rebuild);
    proof {
        assert(resolve_outcome(*rebuild, fold_ys@, fold_xs@, *groups, s));
    }
    let (ys, xs) = match s {
        Ok(f) => f,
        Err(e) => {
            return Err(FoldGroupsError::Rebuild(e));
        },
    };
    let y: &[FriFoldStepProof] = ys.as_slice();
    let x: &[FriFoldStepProof] = xs.as_slice();
    let b = bind(y, x);
    proof {
        assert(call_ensures(*bind, (y, x), b));
        assert(bind_says(*bind, ys@, xs@, b));
    }
    if let Err(e) = b {
        return Err(FoldGroupsError::Bind(e));
    }
    check_folds_with_groups(y, x, groups, group_verifier, fold_verifier)
}

} // verus!
