//! What a reduced opening measures: how far an opened row is from the values claimed for it.
use vstd::arithmetic::div_mod::{lemma_add_mod_noop, lemma_mul_mod_noop_left, lemma_sub_mod_noop};
use vstd::prelude::*;

use crate::circle::v_n;
use crate::deep_ro_native::{
    deep_linear, deep_quotient, deep_reduced, lemma_epow_add, lemma_epow_canonical,
    projective_point, shorter, vanishing_norm, vanishing_parts,
};
use crate::ext::{
    eadd, ebase, ecanonical, emul, eneg, eone, epow, esquare, esub, evals_of, ezero, imul, Ext,
};
use crate::ext_ring::{
    einv, lemma_einv, lemma_emul_assoc, lemma_emul_canonical, lemma_emul_comm, lemma_emul_one,
    lemma_escale_is_emul,
};
use crate::field::vals;
use crate::fri_ro::{accumulated, RoInput};

verus! {

/// A row holds the values claimed for it.
pub open spec fn agrees(px: Seq<int>, pz: Seq<Ext>) -> bool {
    &&& px.len() == pz.len()
    &&& forall|i: int| 0 <= i < px.len() ==> ebase(#[trigger] px[i]) == pz[i]
}

/// A product with zero.
proof fn lemma_zero_product(x: int, z: int)
    requires
        z == 0,
    ensures
        x * z == 0,
        z * x == 0,
{
    assert(x * 0 == 0 && 0 * x == 0) by (nonlinear_arith);
}

/// Products with zero, and an element less itself.
proof fn lemma_zero_times(a: Ext)
    ensures
        emul(a, ezero()) == ezero(),
        emul(ezero(), a) == ezero(),
        esub(a, a) == ezero(),
        eadd(ezero(), ezero()) == ezero(),
{
    let z = ezero();
    lemma_zero_product(a.c0, z.c0);
    lemma_zero_product(a.c1, z.c0);
    lemma_zero_product(a.c2, z.c0);
    assert(imul(a, z) == z);
    assert(imul(z, a) == z);
    reveal(emul);
}

/// A row that holds its claimed values combines to zero.
proof fn lemma_linear_agrees(alpha: Ext, px: Seq<int>, pz: Seq<Ext>, n: nat)
    requires
        n <= px.len(),
        agrees(px, pz),
    ensures
        deep_linear(alpha, px, pz, n) == ezero(),
    decreases n,
{
    if n > 0 {
        lemma_linear_agrees(alpha, px, pz, (n - 1) as nat);
        assert(ebase(px[n - 1]) == pz[n - 1]);
        lemma_zero_times(pz[n - 1]);
        lemma_zero_times(epow(alpha, (n - 1) as nat));
    }
}

/// A row that holds its claimed values reduces to zero, wherever it was opened.
pub proof fn lemma_agreeing_row_reduces_to_zero(
    alpha: Ext,
    sx: int,
    sy: int,
    zeta: Ext,
    px: Seq<int>,
    pz: Seq<Ext>,
)
    requires
        agrees(px, pz),
    ensures
        deep_reduced(alpha, sx, sy, zeta, px, pz) == ezero(),
{
    let at = projective_point(zeta);
    let (re, im) = vanishing_parts(sx, sy, at);
    lemma_linear_agrees(alpha, px, pz, shorter(px.len(), pz.len()));
    lemma_zero_times(
        emul(esub(re, emul(epow(alpha, px.len()), im)), einv(vanishing_norm(sx, sy, at))),
    );
}

/// The rows differ from their claimed values in one column only.
pub open spec fn differs_at(px: Seq<int>, pz: Seq<Ext>, k: int) -> bool {
    &&& px.len() == pz.len()
    &&& 0 <= k < px.len()
    &&& forall|i: int| 0 <= i < px.len() && i != k ==> ebase(#[trigger] px[i]) == pz[i]
}

/// A difference in one column counts with the power of its place.
pub proof fn lemma_difference_weighted(alpha: Ext, px: Seq<int>, pz: Seq<Ext>, k: int, n: nat)
    requires
        differs_at(px, pz, k),
        n <= px.len(),
    ensures
        deep_linear(alpha, px, pz, n) == if k < n {
            emul(epow(alpha, k as nat), esub(ebase(px[k]), pz[k]))
        } else {
            ezero()
        },
    decreases n,
{
    if n > 0 {
        lemma_difference_weighted(alpha, px, pz, k, (n - 1) as nat);
        let w = epow(alpha, (n - 1) as nat);
        let d = esub(ebase(px[n - 1]), pz[n - 1]);
        lemma_zero_times(w);
        lemma_zero_times(pz[n - 1]);
        lemma_emul_canonical(w, d);
        if n - 1 != k {
            assert(d == ezero());
            lemma_emul_canonical(epow(alpha, k as nat), esub(ebase(px[k]), pz[k]));
            lemma_add_zero(emul(epow(alpha, k as nat), esub(ebase(px[k]), pz[k])));
        } else {
            lemma_add_zero(emul(w, d));
        }
    }
}

/// Zero added.
proof fn lemma_add_zero(a: Ext)
    requires
        ecanonical(a),
    ensures
        eadd(a, ezero()) == a,
        eadd(ezero(), a) == a,
{
}

/// A reduction times what it is divided by is the combination of the row's differences times the
/// vanishing parts: what is opened, `re - alpha^w im`, and `sum alpha^i (px_i - pz_i)`.
pub proof fn lemma_reduction_times_norm(
    alpha: Ext,
    sx: int,
    sy: int,
    at: (Ext, Ext),
    px: Seq<int>,
    pz: Seq<Ext>,
    i: Ext,
)
    requires
        px.len() == pz.len(),
        ecanonical(i),
        emul(vanishing_norm(sx, sy, at), i) == eone(),
    ensures
        emul(deep_quotient(alpha, sx, sy, at, px, pz), vanishing_norm(sx, sy, at)) == emul(
            esub(
                vanishing_parts(sx, sy, at).0,
                emul(epow(alpha, px.len()), vanishing_parts(sx, sy, at).1),
            ),
            deep_linear(alpha, px, pz, px.len()),
        ),
{
    let norm = vanishing_norm(sx, sy, at);
    let (re, im) = vanishing_parts(sx, sy, at);
    let numer = esub(re, emul(epow(alpha, px.len()), im));
    let lin = deep_linear(alpha, px, pz, px.len());
    lemma_einv(norm, i);
    // ((numer * i) * lin) * norm == numer * lin
    lemma_emul_assoc(numer, i, lin);
    lemma_emul_comm(i, lin);
    lemma_emul_assoc(numer, lin, i);
    assert(emul(emul(numer, i), lin) == emul(emul(numer, lin), i));
    lemma_emul_assoc(emul(numer, lin), i, norm);
    lemma_emul_comm(i, norm);
    lemma_emul_canonical(numer, lin);
    lemma_emul_one(emul(numer, lin));
}

/// On the circle, both vanishing parts of a point are zero at that very point.
pub proof fn lemma_point_vanishes_at_itself(sx: int, sy: int)
    requires
        (sx * sx + sy * sy) % (crate::field::P as int) == 1,
    ensures
        vanishing_parts(sx, sy, (ebase(sx), ebase(sy))) == (ezero(), ezero()),
{
    let p = crate::field::P as int;
    let n = eneg(ebase(sy));
    let m = (-sy) % p;
    lemma_escale_is_emul(ebase(sx), sx);
    lemma_escale_is_emul(ebase(sx), sy);
    lemma_escale_is_emul(n, sx);
    lemma_escale_is_emul(n, sy);
    lemma_zero_product(sx, 0);
    lemma_zero_product(sy, 0);
    lemma_mul_mod_noop_left(-sy, sy, p);
    lemma_mul_mod_noop_left(-sy, sx, p);
    assert((-sy) * sy == -(sy * sy)) by (nonlinear_arith);
    assert((-sy) * sx == -(sx * sy)) by (nonlinear_arith);
    lemma_sub_mod_noop(sx * sx, -(sy * sy), p);
    lemma_add_mod_noop(sx * sy, -(sx * sy), p);
}

/// The number of columns of the first `n` quotient chunks opened by a query.
pub open spec fn columns_before(ri: RoInput, n: nat) -> nat
    decreases n,
{
    if n == 0 {
        0
    } else {
        columns_before(ri, (n - 1) as nat) + ri.input().input_openings@[1].opened_values@[n
            - 1]@.len()
    }
}

/// The square of a power.
proof fn lemma_square_power(a: Ext, w: nat)
    ensures
        esquare(epow(a, w)) == epow(a, 2 * w),
{
    lemma_epow_add(a, w, w);
    assert(w + w == 2 * w);
}

/// The trace openings of a query: the row reduced at the evaluation point, and with the weight
/// of twice its columns the row reduced at the next point.
pub proof fn lemma_trace_sum(ri: RoInput)
    ensures
        ({
            let a = ri.chal.batch_alpha@;
            let row = ri.input().input_openings@[0].opened_values@[0]@;
            let w = row.len();
            let h = ri.proof.degree_bits + ri.chal.log_blowup;
            let here = ri.reduced(h, ri.chal.zeta@, row, ri.proof.trace_local@);
            let next = ri.reduced(h, ri.zeta_next(), row, ri.proof.trace_next->0@);
            &&& ri.trace_state().0 == epow(a, 4 * w)
            &&& ri.trace_state().1 == eadd(here, emul(epow(a, 2 * w), next))
        }),
{
    let a = ri.chal.batch_alpha@;
    let row = ri.trace_row();
    let w = row.len();
    let h = ri.trace_height();
    let here = ri.reduced(h, ri.chal.zeta@, row, ri.proof.trace_local@);
    lemma_square_power(a, w);
    lemma_epow_canonical(a, 2 * w);
    lemma_emul_one(epow(a, 2 * w));
    lemma_epow_add(a, 2 * w, 2 * w);
    lemma_reduced_canonical(ri, h, ri.chal.zeta@, row, ri.proof.trace_local@);
    lemma_emul_one(here);
    lemma_add_zero(here);
    let first = accumulated((eone(), ezero()), a, w, here);
    assert(first == (epow(a, 2 * w), here));
    assert(2 * w + 2 * w == 4 * w);
}

/// A reduction is canonical.
proof fn lemma_reduced_canonical(
    ri: RoInput,
    h: int,
    zeta: Ext,
    row: Seq<crate::field::Val>,
    at_zeta: Seq<crate::ext::Challenge>,
)
    ensures
        ecanonical(ri.reduced(h, zeta, row, at_zeta)),
{
    let p = ri.point_at(h);
    let at = projective_point(zeta);
    let (re, im) = vanishing_parts(p.0, p.1, at);
    let px = vals(row);
    let pz = evals_of(at_zeta);
    let a = ri.chal.batch_alpha@;
    lemma_emul_canonical(
        emul(
            esub(re, emul(epow(a, px.len()), im)),
            einv(vanishing_norm(p.0, p.1, at)),
        ),
        deep_linear(a, px, pz, shorter(px.len(), pz.len())),
    );
}

/// The weight with which the next quotient chunk counts: past the trace, where that is as tall,
/// and past the chunks before it, twice for each column; the trace's columns count twice over.
pub proof fn lemma_chunk_weight(ri: RoInput, n: nat)
    requires
        n <= ri.proof.quotient_chunks@.len(),
    ensures
        ri.quotient_state(n).0 == epow(
            ri.chal.batch_alpha@,
            2 * columns_before(ri, n) + if ri.proof.quotient_chunks@.len() == 1 {
                0
            } else {
                4 * ri.input().input_openings@[0].opened_values@[0]@.len()
            },
        ),
        n < ri.proof.quotient_chunks@.len() ==> ri.quotient_state(n + 1).1 == eadd(
            ri.quotient_state(n).1,
            emul(
                ri.quotient_state(n).0,
                ri.reduced(
                    ri.quotient_height(),
                    ri.chal.zeta@,
                    ri.input().input_openings@[1].opened_values@[n as int]@,
                    ri.proof.quotient_chunks@[n as int]@,
                ),
            ),
        ),
    decreases n,
{
    let a = ri.chal.batch_alpha@;
    lemma_trace_sum(ri);
    if n > 0 {
        let k = (n - 1) as nat;
        lemma_chunk_weight(ri, k);
        let w = ri.chunk_row(k as int).len();
        let base: nat = if ri.proof.quotient_chunks@.len() == 1 {
            0
        } else {
            4 * ri.input().input_openings@[0].opened_values@[0]@.len()
        };
        lemma_square_power(a, w);
        let e = 2 * columns_before(ri, k) + base;
        lemma_epow_add(a, e, 2 * w);
        assert(e + 2 * w == 2 * columns_before(ri, n) + base);
    }
}

/// The opened rows of a query hold the values claimed for them at the evaluation points.
pub open spec fn rows_agree(ri: RoInput) -> bool {
    let opened = ri.input().input_openings@;
    &&& agrees(vals(opened[0].opened_values@[0]@), evals_of(ri.proof.trace_local@))
    &&& agrees(vals(opened[0].opened_values@[0]@), evals_of(ri.proof.trace_next->0@))
    &&& forall|i: int|
        0 <= i < ri.proof.quotient_chunks@.len() ==> agrees(
            vals(opened[1].opened_values@[i]@),
            evals_of((#[trigger] ri.proof.quotient_chunks@[i])@),
        )
}

/// The quotient sum of rows that agree.
proof fn lemma_agreeing_chunks(ri: RoInput, n: nat)
    requires
        rows_agree(ri),
        n <= ri.proof.quotient_chunks@.len(),
    ensures
        ri.trace_state().1 == ezero(),
        ri.quotient_state(n).1 == ezero(),
    decreases n,
{
    let a = ri.chal.batch_alpha@;
    let opened = ri.input().input_openings@;
    let h = ri.trace_height();
    let t = ri.point_at(h);
    let row = opened[0].opened_values@[0]@;
    lemma_trace_sum(ri);
    lemma_agreeing_row_reduces_to_zero(
        a,
        t.0,
        t.1,
        ri.chal.zeta@,
        vals(row),
        evals_of(ri.proof.trace_local@),
    );
    lemma_agreeing_row_reduces_to_zero(
        a,
        t.0,
        t.1,
        ri.zeta_next(),
        vals(row),
        evals_of(ri.proof.trace_next->0@),
    );
    lemma_zero_times(epow(a, 2 * row.len()));
    if n > 0 {
        let k = n - 1;
        lemma_agreeing_chunks(ri, k as nat);
        let p = ri.point_at(ri.quotient_height());
        assert(ri.proof.quotient_chunks@[k]@ == ri.proof.quotient_chunks@[k]@);
        lemma_agreeing_row_reduces_to_zero(
            a,
            p.0,
            p.1,
            ri.chal.zeta@,
            vals(opened[1].opened_values@[k]@),
            evals_of(ri.proof.quotient_chunks@[k]@),
        );
        lemma_zero_times(ri.quotient_state(k as nat).0);
    }
}

/// A query whose rows hold the claimed values reduces to zero at every height: what enters its
/// first-layer folds is the correction alone.
pub proof fn lemma_agreeing_query_reduces_to_zero(ri: RoInput, k: int)
    requires
        rows_agree(ri),
        0 <= k < ri.sums().len(),
    ensures
        ri.sums()[k].1 == ezero(),
        ri.corrected(k) == esub(
            ezero(),
            emul(
                ri.view.lambdas@[k]@,
                ebase(
                    v_n(
                        ri.point_at(ri.sums()[k].0).0,
                        (ri.sums()[k].0 - ri.chal.log_blowup) as nat,
                    ),
                ),
            ),
        ),
{
    lemma_agreeing_chunks(ri, ri.proof.quotient_chunks@.len());
}

/// The heights of a query's sums: the trace's, and above it the quotient's where there is one
/// chunk.
pub proof fn lemma_sum_places(ri: RoInput)
    ensures
        ri.sums().len() == if ri.proof.quotient_chunks@.len() == 1 {
            2nat
        } else {
            1nat
        },
        forall|k: int|
            0 <= k < ri.sums().len() ==> (#[trigger] ri.sums()[k]).0 == ri.proof.degree_bits
                + ri.chal.log_blowup + k,
        ri.sums().last().1 == ri.quotient_state(ri.proof.quotient_chunks@.len()).1,
        ri.proof.quotient_chunks@.len() == 1 ==> ri.sums()[0].1 == ri.trace_state().1,
{
}

/// The quotient sum of a query with one chunk is that chunk's row reduced.
pub proof fn lemma_single_chunk_sum(ri: RoInput)
    requires
        ri.proof.quotient_chunks@.len() == 1,
    ensures
        ri.sums()[1].1 == ri.reduced(
            ri.quotient_height(),
            ri.chal.zeta@,
            ri.input().input_openings@[1].opened_values@[0]@,
            ri.proof.quotient_chunks@[0]@,
        ),
{
    let row = ri.input().input_openings@[1].opened_values@[0]@;
    let at = ri.proof.quotient_chunks@[0]@;
    let v = ri.reduced(ri.quotient_height(), ri.chal.zeta@, row, at);
    lemma_reduced_canonical(ri, ri.quotient_height(), ri.chal.zeta@, row, at);
    lemma_emul_one(v);
    lemma_add_zero(v);
    assert(ri.quotient_state(0) == (eone(), ezero()));
    assert(ri.quotient_state(1).1 == v);
}

} // verus!
