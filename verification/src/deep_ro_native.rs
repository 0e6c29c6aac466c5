//! Out-of-domain quotients of opened rows.
//!
//! For an evaluation point `zeta`, given by its projective coordinate, a row opened at the base
//! point `(sx, sy)` is reduced to `(re - alpha^w im) / (re^2 + im^2)` times the combination
//! `sum alpha^i (p_i(x) - p_i(zeta))`, where `re` and `im` are the parts of the vanishing function
//! of `zeta` at the base point. The first layer then subtracts `lambda v_n(sx)`.
use vstd::prelude::*;

use crate::circle::{point_v_n, v_n};
use crate::ext::{
    eadd, ebase, ecanonical, edouble, emul, eneg, eone, epow, esquare, esub, evals_of, ezero,
    lemma_challenge_canonical, Challenge, Ext,
};
use crate::ext_ring::{einv, lemma_einv, lemma_emul_assoc, lemma_emul_canonical, lemma_emul_one};
use crate::field::{vals, Val};

verus! {

/// The widest row the leaf systems reduce.
pub const LEAF_DEEP_RO_MAX_WIDTH: usize = 68;

/// The denominator of the projective parametrisation.
pub open spec fn projective_denominator(t: Ext) -> Ext {
    eadd(eone(), esquare(t))
}

/// The circle point with projective coordinate `t`.
pub open spec fn projective_point(t: Ext) -> (Ext, Ext) {
    let i = einv(projective_denominator(t));
    (emul(esub(eone(), esquare(t)), i), emul(edouble(t), i))
}

/// Both parts of the vanishing function of `at` at the base point `(sx, sy)`.
pub open spec fn vanishing_parts(sx: int, sy: int, at: (Ext, Ext)) -> (Ext, Ext) {
    let n = eneg(at.1);
    let dx = esub(emul(at.0, ebase(sx)), emul(n, ebase(sy)));
    let dy = eadd(emul(at.0, ebase(sy)), emul(n, ebase(sx)));
    (esub(eone(), dx), eneg(dy))
}

/// The squared length of the vanishing parts, by which a reduction divides.
pub open spec fn vanishing_norm(sx: int, sy: int, at: (Ext, Ext)) -> Ext {
    let (re, im) = vanishing_parts(sx, sy, at);
    eadd(esquare(re), esquare(im))
}

/// A reduction at `zeta` divides by zero nowhere.
pub open spec fn deep_defined(sx: int, sy: int, zeta: Ext) -> bool {
    &&& projective_denominator(zeta) != ezero()
    &&& vanishing_norm(sx, sy, projective_point(zeta)) != ezero()
}

/// `sum over i < n of alpha^i (px_i - pz_i)`.
pub open spec fn deep_linear(alpha: Ext, px: Seq<int>, pz: Seq<Ext>, n: nat) -> Ext
    decreases n,
{
    if n == 0 {
        ezero()
    } else {
        eadd(
            deep_linear(alpha, px, pz, (n - 1) as nat),
            emul(epow(alpha, (n - 1) as nat), esub(ebase(px[n - 1]), pz[n - 1])),
        )
    }
}

/// The length of the shorter list.
pub open spec fn shorter(a: nat, b: nat) -> nat {
    if a <= b {
        a
    } else {
        b
    }
}

/// A row opened at `(sx, sy)` reduced against its values at `zeta`.
pub open spec fn deep_reduced(
    alpha: Ext,
    sx: int,
    sy: int,
    zeta: Ext,
    px: Seq<int>,
    pz: Seq<Ext>,
) -> Ext {
    deep_quotient(alpha, sx, sy, projective_point(zeta), px, pz)
}

/// As [`deep_reduced`], for a circle point.
pub open spec fn deep_quotient(
    alpha: Ext,
    sx: int,
    sy: int,
    at: (Ext, Ext),
    px: Seq<int>,
    pz: Seq<Ext>,
) -> Ext {
    let (re, im) = vanishing_parts(sx, sy, at);
    let numer = esub(re, emul(epow(alpha, px.len()), im));
    emul(
        emul(numer, einv(vanishing_norm(sx, sy, at))),
        deep_linear(alpha, px, pz, shorter(px.len(), pz.len())),
    )
}

/// What the first layer subtracts.
pub open spec fn lambda_corrected(ro: Ext, lambda: Ext, sx: int, log_n: nat) -> Ext {
    esub(ro, emul(lambda, ebase(v_n(sx, log_n))))
}

/// The circle point with projective coordinate `t`, unless its denominator is zero.
pub fn try_from_projective_line(t: Challenge) -> (r: Option<(Challenge, Challenge)>)
    ensures
        r is Some <==> projective_denominator(t@) != ezero(),
        r matches Some(p) ==> (p.0@, p.1@) == projective_point(t@),
{
    let one = Challenge::one();
    let t2 = t.square();
    let denom = one.plus(&t2);
    match denom.try_inverse() {
        Some(i) => {
            proof {
                lemma_challenge_canonical(i);
                lemma_einv(denom@, i@);
            }
            Some((one.minus(&t2).times(&i), t.double().times(&i)))
        },
        None => None,
    }
}

/// The circle point with projective coordinate `t`.
pub fn ef_from_projective_line(t: Challenge) -> (r: (Challenge, Challenge))
    requires
        projective_denominator(t@) != ezero(),
    ensures
        (r.0@, r.1@) == projective_point(t@),
{
    try_from_projective_line(t).unwrap()
}

/// Both parts of the vanishing function of `(at_x, at_y)` at the base point `(sx, sy)`.
pub fn v_p(sx: Val, sy: Val, at_x: Challenge, at_y: Challenge) -> (r: (Challenge, Challenge))
    ensures
        (r.0@, r.1@) == vanishing_parts(sx@, sy@, (at_x@, at_y@)),
{
    let neg_at_y = at_y.negate();
    let cx = Challenge::from_base(sx);
    let cy = Challenge::from_base(sy);
    let diff_x = at_x.times(&cx).minus(&neg_at_y.times(&cy));
    let diff_y = at_x.times(&cy).plus(&neg_at_y.times(&cx));
    (Challenge::one().minus(&diff_x), diff_y.negate())
}

/// One reduction with its intermediate values.
#[derive(Debug, Clone)]
pub struct DeepPartialWitness {
    pub re: Challenge,
    pub im: Challenge,
    pub numer: Challenge,
    pub denom: Challenge,
    pub linear: Challenge,
    pub out_pre: Challenge,
}

/// `d` holds the intermediate values of a reduction at the circle point `at`.
pub open spec fn is_deep_partial(
    d: DeepPartialWitness,
    alpha: Ext,
    sx: int,
    sy: int,
    at: (Ext, Ext),
    px: Seq<int>,
    pz: Seq<Ext>,
) -> bool {
    &&& (d.re@, d.im@) == vanishing_parts(sx, sy, at)
    &&& d.numer@ == esub(d.re@, emul(epow(alpha, px.len()), d.im@))
    &&& d.denom@ == vanishing_norm(sx, sy, at)
    &&& d.linear@ == deep_linear(alpha, px, pz, shorter(px.len(), pz.len()))
    &&& d.out_pre@ == deep_quotient(alpha, sx, sy, at, px, pz)
}

/// `sum alpha^i (px_i - pz_i)`.
fn linear_combination(alpha: &Challenge, px: &[Val], pz: &[Challenge]) -> (r: Challenge)
    ensures
        r@ == deep_linear(
            alpha@,
            vals(px@),
            evals_of(pz@),
            shorter(px@.len(), pz@.len()),
        ),
{
    let n: usize = if px.len() <= pz.len() {
        px.len()
    } else {
        pz.len()
    };
    let mut linear = Challenge::zero();
    let mut a = Challenge::one();
    let mut i: usize = 0;
    while i < n
        invariant
            i <= n,
            n <= px@.len(),
            n <= pz@.len(),
            a@ == epow(alpha@, i as nat),
            linear@ == deep_linear(alpha@, vals(px@), evals_of(pz@), i as nat),
        decreases n - i,
    {
        let term = Challenge::from_base(px[i]).minus(&pz[i]);
        linear = linear.plus(&a.times(&term));
        a = a.times(alpha);
        proof {
            assert(vals(px@)[i as int] == px@[i as int]@);
            assert(evals_of(pz@)[i as int] == pz@[i as int]@);
        }
        i += 1;
    }
    linear
}

/// A reduction at the circle point `(at_x, at_y)`, unless it would divide by zero.
fn deep_partial(
    alpha: Challenge,
    sx: Val,
    sy: Val,
    at_x: Challenge,
    at_y: Challenge,
    alpha_pow_w: Challenge,
    px: &[Val],
    pz: &[Challenge],
) -> (r: Option<DeepPartialWitness>)
    requires
        alpha_pow_w@ == epow(alpha@, px@.len()),
    ensures
        r is Some <==> vanishing_norm(sx@, sy@, (at_x@, at_y@)) != ezero(),
        r matches Some(d) ==> is_deep_partial(
            d,
            alpha@,
            sx@,
            sy@,
            (at_x@, at_y@),
            vals(px@),
            evals_of(pz@),
        ),
{
    let (re, im) = v_p(sx, sy, at_x, at_y);
    let numer = re.minus(&alpha_pow_w.times(&im));
    let denom = re.square().plus(&im.square());
    let linear = linear_combination(&alpha, px, pz);
    match denom.try_inverse() {
        Some(i) => {
            proof {
                lemma_challenge_canonical(i);
                lemma_einv(denom@, i@);
            }
            let out_pre = numer.times(&i).times(&linear);
            Some(DeepPartialWitness { re, im, numer, denom, linear, out_pre })
        },
        None => None,
    }
}

/// A row reduced at `zeta`, unless that would divide by zero.
pub fn try_deep_quotient_reduce_row(
    alpha: Challenge,
    sx: Val,
    sy: Val,
    zeta: Challenge,
    ps_at_x: &[Val],
    ps_at_zeta: &[Challenge],
) -> (r: Option<Challenge>)
    ensures
        r is Some <==> deep_defined(sx@, sy@, zeta@),
        r matches Some(ro) ==> ro@ == deep_reduced(
            alpha@,
            sx@,
            sy@,
            zeta@,
            vals(ps_at_x@),
            evals_of(ps_at_zeta@),
        ),
{
    match try_from_projective_line(zeta) {
        Some((at_x, at_y)) => {
            let alpha_pow_width = alpha.exp(ps_at_x.len());
            match deep_partial(alpha, sx, sy, at_x, at_y, alpha_pow_width, ps_at_x, ps_at_zeta) {
                Some(d) => Some(d.out_pre),
                None => None,
            }
        },
        None => None,
    }
}

/// A row reduced at `zeta`.
pub fn deep_quotient_reduce_row(
    alpha: Challenge,
    sx: Val,
    sy: Val,
    zeta: Challenge,
    ps_at_x: &[Val],
    ps_at_zeta: &[Challenge],
) -> (r: Challenge)
    requires
        deep_defined(sx@, sy@, zeta@),
    ensures
        r@ == deep_reduced(
            alpha@,
            sx@,
            sy@,
            zeta@,
            vals(ps_at_x@),
            evals_of(ps_at_zeta@),
        ),
{
    try_deep_quotient_reduce_row(alpha, sx, sy, zeta, ps_at_x, ps_at_zeta).unwrap()
}

/// Intermediate values of a width-three reduction with its correction.
#[derive(Debug, Clone)]
pub struct DeepRoW3Witness {
    pub at_x: Challenge,
    pub at_y: Challenge,
    pub alpha2: Challenge,
    pub alpha3: Challenge,
    pub re: Challenge,
    pub im: Challenge,
    pub numer: Challenge,
    pub denom: Challenge,
    pub linear: Challenge,
    pub out_pre: Challenge,
    pub v_n: Val,
    pub out: Challenge,
}

/// `w` holds the intermediate values of a width-three reduction with its correction.
pub open spec fn is_w3_witness(
    w: DeepRoW3Witness,
    alpha: Ext,
    sx: int,
    sy: int,
    zeta: Ext,
    px: Seq<int>,
    pz: Seq<Ext>,
    lambda: Ext,
    log_n: nat,
) -> bool {
    &&& (w.at_x@, w.at_y@) == projective_point(zeta)
    &&& w.alpha2@ == epow(alpha, 2)
    &&& w.alpha3@ == epow(alpha, 3)
    &&& (w.re@, w.im@) == vanishing_parts(sx, sy, projective_point(zeta))
    &&& w.numer@ == esub(w.re@, emul(w.alpha3@, w.im@))
    &&& w.denom@ == vanishing_norm(sx, sy, projective_point(zeta))
    &&& w.linear@ == deep_linear(alpha, px, pz, 3)
    &&& w.out_pre@ == deep_reduced(alpha, sx, sy, zeta, px, pz)
    &&& w.v_n@ == v_n(sx, log_n)
    &&& w.out@ == lambda_corrected(w.out_pre@, lambda, sx, log_n)
}

/// The intermediate values of a width-three reduction, unless it would divide by zero.
pub fn try_deep_ro_w3_witness(
    alpha: Challenge,
    sx: Val,
    sy: Val,
    zeta: Challenge,
    px: [Val; 3],
    pz: [Challenge; 3],
    lambda: Challenge,
    log_n: usize,
) -> (r: Option<DeepRoW3Witness>)
    ensures
        r is Some <==> deep_defined(sx@, sy@, zeta@),
        r matches Some(w) ==> is_w3_witness(
            w,
            alpha@,
            sx@,
            sy@,
            zeta@,
            vals(px@),
            evals_of(pz@),
            lambda@,
            log_n as nat,
        ),
{
    let (at_x, at_y) = match try_from_projective_line(zeta) {
        Some(p) => p,
        None => {
            return None;
        },
    };
    let alpha2 = alpha.square();
    let alpha3 = alpha2.times(&alpha);
    proof {
        lemma_challenge_canonical(alpha);
        lemma_epow_small(alpha@);
    }
    let px_row: &[Val] = vstd::array::array_as_slice(&px);
    let pz_row: &[Challenge] = vstd::array::array_as_slice(&pz);
    match deep_partial(alpha, sx, sy, at_x, at_y, alpha3, px_row, pz_row) {
        Some(d) => {
            let vn = point_v_n(sx, log_n);
            let out = d.out_pre.minus(&lambda.times(&Challenge::from_base(vn)));
            Some(
                DeepRoW3Witness {
                    at_x,
                    at_y,
                    alpha2,
                    alpha3,
                    re: d.re,
                    im: d.im,
                    numer: d.numer,
                    denom: d.denom,
                    linear: d.linear,
                    out_pre: d.out_pre,
                    v_n: vn,
                    out,
                },
            )
        },
        None => None,
    }
}

/// The intermediate values of a width-three reduction with its correction.
pub fn deep_ro_w3_witness(
    alpha: Challenge,
    sx: Val,
    sy: Val,
    zeta: Challenge,
    px: [Val; 3],
    pz: [Challenge; 3],
    lambda: Challenge,
    log_n: usize,
) -> (w: DeepRoW3Witness)
    requires
        deep_defined(sx@, sy@, zeta@),
    ensures
        is_w3_witness(
            w,
            alpha@,
            sx@,
            sy@,
            zeta@,
            vals(px@),
            evals_of(pz@),
            lambda@,
            log_n as nat,
        ),
{
    try_deep_ro_w3_witness(alpha, sx, sy, zeta, px, pz, lambda, log_n).unwrap()
}

/// The first powers of an element.
pub proof fn lemma_epow_small(a: Ext)
    requires
        ecanonical(a),
    ensures
        epow(a, 1) == a,
        epow(a, 2) == esquare(a),
        epow(a, 3) == emul(esquare(a), a),
{
    reveal_with_fuel(epow, 4);
    lemma_emul_one(a);
}

/// Powers add in the exponent.
pub proof fn lemma_epow_add(a: Ext, m: nat, n: nat)
    ensures
        epow(a, m + n) == emul(epow(a, m), epow(a, n)),
    decreases n,
{
    lemma_epow_canonical(a, m);
    if n == 0 {
        lemma_emul_one(epow(a, m));
    } else {
        lemma_epow_add(a, m, (n - 1) as nat);
        assert(epow(a, m + n) == emul(epow(a, (m + n - 1) as nat), a));
        lemma_emul_assoc(epow(a, m), epow(a, (n - 1) as nat), a);
    }
}

pub proof fn lemma_epow_canonical(a: Ext, n: nat)
    ensures
        ecanonical(epow(a, n)),
{
    if n > 0 {
        lemma_emul_canonical(epow(a, (n - 1) as nat), a);
    }
}

/// Intermediate values of a leaf trace reduction: both evaluation points, combined and
/// corrected.
#[derive(Debug, Clone)]
pub struct DeepRoLeafTraceWitness {
    pub at_x: Challenge,
    pub at_y: Challenge,
    pub atn_x: Challenge,
    pub atn_y: Challenge,
    pub alpha_w: Challenge,
    pub alpha_w2: Challenge,
    pub deep0: DeepPartialWitness,
    pub deep1: DeepPartialWitness,
    pub combined: Challenge,
    pub v_n: Val,
    pub out: Challenge,
}

/// `w` holds the intermediate values of a trace reduction at `zeta` and `zeta_next`.
pub open spec fn is_leaf_witness(
    w: DeepRoLeafTraceWitness,
    alpha: Ext,
    sx: int,
    sy: int,
    zeta: Ext,
    zeta_next: Ext,
    px: Seq<int>,
    pz_local: Seq<Ext>,
    pz_next: Seq<Ext>,
    lambda: Ext,
    log_n: nat,
) -> bool {
    &&& (w.at_x@, w.at_y@) == projective_point(zeta)
    &&& (w.atn_x@, w.atn_y@) == projective_point(zeta_next)
    &&& w.alpha_w@ == epow(alpha, px.len())
    &&& w.alpha_w2@ == esquare(w.alpha_w@)
    &&& is_deep_partial(w.deep0, alpha, sx, sy, projective_point(zeta), px, pz_local)
    &&& is_deep_partial(w.deep1, alpha, sx, sy, projective_point(zeta_next), px, pz_next)
    &&& w.combined@ == eadd(w.deep0.out_pre@, emul(w.alpha_w2@, w.deep1.out_pre@))
    &&& w.v_n@ == v_n(sx, log_n)
    &&& w.out@ == lambda_corrected(w.combined@, lambda, sx, log_n)
}

/// Why a leaf reduction was not made.
#[derive(Debug, Clone, PartialEq, Eq)]
pub enum DeepRoError {
    /// The row is empty or too wide.
    Width(usize),
    /// The opened values do not have the row's width.
    PzWidth,
    /// The reduction would divide by zero.
    Pole,
}

/// Why a leaf reduction is not made, if so.
pub open spec fn leaf_report(
    sx: int,
    sy: int,
    zeta: Ext,
    zeta_next: Ext,
    width: nat,
    local_width: nat,
    next_width: nat,
) -> Option<DeepRoError> {
    if width == 0 || width > LEAF_DEEP_RO_MAX_WIDTH {
        Some(DeepRoError::Width(width as usize))
    } else if local_width != width || next_width != width {
        Some(DeepRoError::PzWidth)
    } else if !deep_defined(sx, sy, zeta) || !deep_defined(sx, sy, zeta_next) {
        Some(DeepRoError::Pole)
    } else {
        None
    }
}

/// The intermediate values of a trace reduction of any supported width.
pub fn deep_ro_leaf_trace_witness(
    alpha: Challenge,
    sx: Val,
    sy: Val,
    zeta: Challenge,
    zeta_next: Challenge,
    px: &[Val],
    pz_local: &[Challenge],
    pz_next: &[Challenge],
    lambda: Challenge,
    log_n: usize,
) -> (r: Result<DeepRoLeafTraceWitness, DeepRoError>)
    ensures
        match leaf_report(
            sx@,
            sy@,
            zeta@,
            zeta_next@,
            px@.len(),
            pz_local@.len(),
            pz_next@.len(),
        ) {
            Some(e) => r == Err::<DeepRoLeafTraceWitness, DeepRoError>(e),
            None => r matches Ok(w) && is_leaf_witness(
                w,
                alpha@,
                sx@,
                sy@,
                zeta@,
                zeta_next@,
                vals(px@),
                evals_of(pz_local@),
                evals_of(pz_next@),
                lambda@,
                log_n as nat,
            ),
        },
{
    let w: usize = px.len();
    if w == 0 || w > LEAF_DEEP_RO_MAX_WIDTH {
        return Err(DeepRoError::Width(w));
    }
    if pz_local.len() != w || pz_next.len() != w {
        return Err(DeepRoError::PzWidth);
    }
    let (at_x, at_y) = match try_from_projective_line(zeta) {
        Some(p) => p,
        None => {
            return Err(DeepRoError::Pole);
        },
    };
    let (atn_x, atn_y) = match try_from_projective_line(zeta_next) {
        Some(p) => p,
        None => {
            return Err(DeepRoError::Pole);
        },
    };
    let alpha_w = alpha.exp(w);
    let alpha_w2 = alpha_w.square();
    let deep0 = match deep_partial(alpha, sx, sy, at_x, at_y, alpha_w, px, pz_local) {
        Some(d) => d,
        None => {
            return Err(DeepRoError::Pole);
        },
    };
    let deep1 = match deep_partial(alpha, sx, sy, atn_x, atn_y, alpha_w, px, pz_next) {
        Some(d) => d,
        None => {
            return Err(DeepRoError::Pole);
        },
    };
    let combined = deep0.out_pre.plus(&alpha_w2.times(&deep1.out_pre));
    let vn = point_v_n(sx, log_n);
    let out = combined.minus(&lambda.times(&Challenge::from_base(vn)));
    Ok(
        DeepRoLeafTraceWitness {
            at_x,
            at_y,
            atn_x,
            atn_y,
            alpha_w,
            alpha_w2,
            deep0,
            deep1,
            combined,
            v_n: vn,
            out,
        },
    )
}

/// Intermediate values of an aggregation trace reduction, with the powers of `alpha` by
/// squaring.
#[derive(Debug, Clone)]
pub struct DeepRoTraceWitness {
    pub at_x: Challenge,
    pub at_y: Challenge,
    pub atn_x: Challenge,
    pub atn_y: Challenge,
    pub alpha2: Challenge,
    pub alpha4: Challenge,
    pub alpha8: Challenge,
    pub alpha16: Challenge,
    pub alpha32: Challenge,
    pub alpha64: Challenge,
    pub alpha66: Challenge,
    pub alpha132: Challenge,
    pub deep0: DeepPartialWitness,
    pub deep1: DeepPartialWitness,
    pub combined: Challenge,
    pub v_n: Val,
    pub out: Challenge,
}

/// What the powers and the reductions of a trace witness are.
pub open spec fn is_trace_witness(
    w: DeepRoTraceWitness,
    alpha: Ext,
    sx: int,
    sy: int,
    zeta: Ext,
    zeta_next: Ext,
    px: Seq<int>,
    pz_local: Seq<Ext>,
    pz_next: Seq<Ext>,
    lambda: Ext,
    log_n: nat,
) -> bool {
    &&& (w.at_x@, w.at_y@) == projective_point(zeta)
    &&& (w.atn_x@, w.atn_y@) == projective_point(zeta_next)
    &&& w.alpha2@ == epow(alpha, 2)
    &&& w.alpha4@ == epow(alpha, 4)
    &&& w.alpha8@ == epow(alpha, 8)
    &&& w.alpha16@ == epow(alpha, 16)
    &&& w.alpha32@ == epow(alpha, 32)
    &&& w.alpha64@ == epow(alpha, 64)
    &&& w.alpha66@ == epow(alpha, 66)
    &&& w.alpha132@ == epow(alpha, 132)
    &&& is_deep_partial(w.deep0, alpha, sx, sy, projective_point(zeta), px, pz_local)
    &&& is_deep_partial(w.deep1, alpha, sx, sy, projective_point(zeta_next), px, pz_next)
    &&& w.combined@ == eadd(w.deep0.out_pre@, emul(w.alpha132@, w.deep1.out_pre@))
    &&& w.v_n@ == v_n(sx, log_n)
    &&& w.out@ == lambda_corrected(w.combined@, lambda, sx, log_n)
}

/// The intermediate values of an aggregation trace reduction, unless it would divide by zero.
pub fn try_deep_ro_trace_witness(
    alpha: Challenge,
    sx: Val,
    sy: Val,
    zeta: Challenge,
    zeta_next: Challenge,
    px: &[Val; 66],
    pz_local: &[Challenge; 66],
    pz_next: &[Challenge; 66],
    lambda: Challenge,
    log_n: usize,
) -> (r: Option<DeepRoTraceWitness>)
    ensures
        r is Some <==> deep_defined(sx@, sy@, zeta@) && deep_defined(sx@, sy@, zeta_next@),
        r matches Some(w) ==> is_trace_witness(
            w,
            alpha@,
            sx@,
            sy@,
            zeta@,
            zeta_next@,
            vals(px@),
            evals_of(pz_local@),
            evals_of(pz_next@),
            lambda@,
            log_n as nat,
        ),
{
    let leaf = match deep_ro_leaf_trace_witness(
        alpha,
        sx,
        sy,
        zeta,
        zeta_next,
        vstd::array::array_as_slice(px),
        vstd::array::array_as_slice(pz_local),
        vstd::array::array_as_slice(pz_next),
        lambda,
        log_n,
    ) {
        Ok(w) => w,
        Err(_) => {
            return None;
        },
    };
    let alpha2 = alpha.square();
    let alpha4 = alpha2.square();
    let alpha8 = alpha4.square();
    let alpha16 = alpha8.square();
    let alpha32 = alpha16.square();
    let alpha64 = alpha32.square();
    proof {
        lemma_challenge_canonical(alpha);
        lemma_epow_small(alpha@);
        lemma_epow_add(alpha@, 2, 2);
        lemma_epow_add(alpha@, 4, 4);
        lemma_epow_add(alpha@, 8, 8);
        lemma_epow_add(alpha@, 16, 16);
        lemma_epow_add(alpha@, 32, 32);
        lemma_epow_add(alpha@, 66, 66);
    }
    Some(
        DeepRoTraceWitness {
            at_x: leaf.at_x,
            at_y: leaf.at_y,
            atn_x: leaf.atn_x,
            atn_y: leaf.atn_y,
            alpha2,
            alpha4,
            alpha8,
            alpha16,
            alpha32,
            alpha64,
            alpha66: leaf.alpha_w,
            alpha132: leaf.alpha_w2,
            deep0: leaf.deep0,
            deep1: leaf.deep1,
            combined: leaf.combined,
            v_n: leaf.v_n,
            out: leaf.out,
        },
    )
}

/// The intermediate values of an aggregation trace reduction.
pub fn deep_ro_trace_witness(
    alpha: Challenge,
    sx: Val,
    sy: Val,
    zeta: Challenge,
    zeta_next: Challenge,
    px: &[Val; 66],
    pz_local: &[Challenge; 66],
    pz_next: &[Challenge; 66],
    lambda: Challenge,
    log_n: usize,
) -> (w: DeepRoTraceWitness)
    requires
        deep_defined(sx@, sy@, zeta@),
        deep_defined(sx@, sy@, zeta_next@),
    ensures
        is_trace_witness(
            w,
            alpha@,
            sx@,
            sy@,
            zeta@,
            zeta_next@,
            vals(px@),
            evals_of(pz_local@),
            evals_of(pz_next@),
            lambda@,
            log_n as nat,
        ),
{
    try_deep_ro_trace_witness(
        alpha,
        sx,
        sy,
        zeta,
        zeta_next,
        px,
        pz_local,
        pz_next,
        lambda,
        log_n,
    ).unwrap()
}

} // verus!
