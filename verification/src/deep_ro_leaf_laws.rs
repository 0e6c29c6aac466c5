//! The publics of a leaf reduction satisfy the leaf system.
use vstd::prelude::*;

use crate::circle::v_n;
use crate::constraint::{all_zero, lemma_all_zero_concat};
use crate::deep_ro_air::{lemma_divided, lemma_same_differences};
use crate::deep_ro_leaf_trace_air::{
    active_block, active_sum, all_powers, horner_block, horner_constraints, leaf_element,
    leaf_flag_part, leaf_quotient, leaf_reduction_part, leaf_term, leaf_vanishing, padded_elements,
    padded_row, power_block, power_factor, running_powers, running_sums, DeepRoLeafTraceAir,
    LeafInput,
};
use crate::deep_ro_native::{
    deep_linear, deep_quotient, lemma_epow_canonical, shorter, vanishing_norm, vanishing_parts,
};
use crate::ef_limbs::{limb_differences, limbs_at};
use crate::ext::{eadd, ebase, ecanonical, emul, eone, epow, esquare, esub, ezero, Ext};
use crate::ext_ring::{einv, lemma_emul_canonical, lemma_emul_one, lemma_escale_is_emul};
use crate::field::{fmul, fsub, P};
use crate::flag_air::{exts, lemma_limbs_inside};
use crate::path_gadgets::{flat, lemma_flat_all_zero};

verus! {

/// A supported width, with values of that width at both points.
pub open spec fn leaf_shape(l: LeafInput) -> bool {
    &&& 1 <= l.px.len() <= 68
    &&& l.pz_local.len() == l.px.len()
    &&& l.pz_next.len() == l.px.len()
    &&& ecanonical(l.alpha)
}

/// The flag of entry `i`.
pub open spec fn leaf_flag(l: LeafInput, i: int) -> int {
    if i < l.px.len() {
        1
    } else {
        0
    }
}

/// What the offsets of the publics hold.
proof fn lemma_leaf_layout(l: LeafInput)
    requires
        leaf_shape(l),
    ensures
        ({
            let pv = l.publics();
            &&& pv.len() == 1634
            &&& pv[0] == l.sx && pv[1] == l.sy
            &&& limbs_at(pv, 2) == l.at().0 && limbs_at(pv, 5) == l.at().1
            &&& limbs_at(pv, 8) == l.atn().0 && limbs_at(pv, 11) == l.atn().1
            &&& limbs_at(pv, 14) == l.alpha
            &&& pv[17] == l.px.len()
            &&& forall|i: int| 0 <= i < 68 ==> #[trigger] pv[18 + i] == leaf_flag(l, i)
            &&& forall|i: int| 0 <= i < 68 ==> #[trigger] pv[86 + i] == padded_row(l.px)[i]
            &&& l.elements().len() == 492
            &&& forall|k: int| 0 <= k < 492 ==> #[trigger] leaf_element(pv, k) == l.elements()[k]
            &&& pv[1630] == v_n(l.sx, l.log_n)
            &&& limbs_at(pv, 1631) == l.out()
        }),
{
    let pv = l.publics();
    let start = seq![l.sx, l.sy];
    let first = seq![l.at().0, l.at().1, l.atn().0, l.atn().1, l.alpha];
    let width = seq![l.px.len() as int];
    let flags = Seq::new(
        68,
        |i: int|
            if i < l.px.len() {
                1int
            } else {
                0int
            },
    );
    let row = padded_row(l.px);
    let e = l.elements();
    let vn = seq![v_n(l.sx, l.log_n)];
    let last = exts(seq![l.out()]);
    let rest = width + flags + row + exts(e) + vn + last;
    assert(exts(first).len() == 15);
    assert(pv =~= start + exts(first) + rest);
    lemma_limbs_inside(start, first, rest, 0);
    lemma_limbs_inside(start, first, rest, 1);
    lemma_limbs_inside(start, first, rest, 2);
    lemma_limbs_inside(start, first, rest, 3);
    lemma_limbs_inside(start, first, rest, 4);
    let head = l.head();
    assert(head.len() == 154);
    assert(e.len() == 492);
    assert(exts(e).len() == 1476);
    assert(pv =~= head + exts(e) + (vn + last));
    assert forall|k: int| 0 <= k < 492 implies #[trigger] leaf_element(pv, k) == e[k] by {
        lemma_limbs_inside(head, e, vn + last, k);
    }
    assert(pv =~= (head + exts(e) + vn) + exts(seq![l.out()]) + Seq::<int>::empty());
    lemma_limbs_inside(head + exts(e) + vn, seq![l.out()], Seq::<int>::empty(), 0);
    assert forall|i: int| 0 <= i < 68 implies #[trigger] pv[18 + i] == leaf_flag(l, i) by {
        assert(head[18 + i] == flags[i]);
    }
    assert forall|i: int| 0 <= i < 68 implies #[trigger] pv[86 + i] == row[i] by {
        assert(head[86 + i] == row[i]);
    }
}

/// Where the elements of the publics come from.
proof fn lemma_leaf_elements(l: LeafInput)
    requires
        leaf_shape(l),
    ensures
        ({
            let e = l.elements();
            &&& forall|i: int|
                0 <= i < 68 ==> #[trigger] e[0 + i] == padded_elements(l.pz_local)[i]
            &&& forall|i: int|
                0 <= i < 68 ==> #[trigger] e[68 + i] == padded_elements(l.pz_next)[i]
            &&& forall|i: int|
                0 <= i < 69 ==> #[trigger] e[136 + i] == running_powers(l.alpha, l.px.len())[i]
            &&& e[205] == esquare(epow(l.alpha, l.px.len()))
            &&& forall|i: int| 0 <= i < 6 ==> #[trigger] e[206 + i] == l.red0()[i]
            &&& forall|i: int| 0 <= i < 68 ==> #[trigger] e[212 + i] == all_powers(l.alpha)[i]
            &&& forall|i: int|
                0 <= i < 68 ==> #[trigger] e[280 + i] == running_sums(
                    l.alpha,
                    l.px,
                    l.pz_local,
                )[i]
            &&& forall|i: int| 0 <= i < 6 ==> #[trigger] e[348 + i] == l.red1()[i]
            &&& forall|i: int| 0 <= i < 68 ==> #[trigger] e[354 + i] == all_powers(l.alpha)[i]
            &&& forall|i: int|
                0 <= i < 68 ==> #[trigger] e[422 + i] == running_sums(l.alpha, l.px, l.pz_next)[i]
            &&& e[490] == l.combined()
            &&& e[491] == l.lambda
        }),
{
}

/// The flag constraints of entry `i` vanish.
#[verifier::rlimit(40)]
proof fn lemma_active_block(l: LeafInput, i: int)
    requires
        leaf_shape(l),
        0 <= i < 68,
    ensures
        all_zero(active_block(l.publics(), i)),
{
    lemma_leaf_layout(l);
    lemma_leaf_elements(l);
    let pv = l.publics();
    let e = l.elements();
    let a = pv[18 + i];
    assert(leaf_element(pv, 0 + i) == e[0 + i]);
    assert(leaf_element(pv, 68 + i) == e[68 + i]);
    assert(pv[86 + i] == padded_row(l.px)[i]);
    if i + 1 < 68 {
        assert(pv[18 + (i + 1)] == leaf_flag(l, i + 1));
    }
    if i < l.px.len() {
        assert(a == 1);
        assert(1int * 0int == 0);
        lemma_zero_products(pv[86 + i]);
        lemma_zero_products(e[0 + i].c0);
        lemma_zero_products(e[0 + i].c1);
        lemma_zero_products(e[0 + i].c2);
        lemma_zero_products(e[68 + i].c0);
        lemma_zero_products(e[68 + i].c1);
        lemma_zero_products(e[68 + i].c2);
        if i + 1 < 68 {
            lemma_zero_products(pv[18 + i + 1]);
        }
    } else {
        assert(a == 0);
        assert(1int * 0int == 0 && 0int * (P as int - 1) == 0 && 0int * 1int == 0);
    }
}

proof fn lemma_zero_products(x: int)
    ensures
        fmul(0, x) == 0,
        fmul(x, 0) == 0,
{
    assert(0 * x == 0 && x * 0 == 0);
}

/// The flags sum to the width.
proof fn lemma_active_sum(l: LeafInput, n: nat)
    requires
        leaf_shape(l),
        n <= 68,
    ensures
        active_sum(l.publics(), n) == shorter(n, l.px.len()),
    decreases n,
{
    if n > 0 {
        lemma_active_sum(l, (n - 1) as nat);
        lemma_leaf_layout(l);
        assert(l.publics()[18 + (n - 1)] == leaf_flag(l, n - 1));
    }
}

/// The power factor is `alpha` where the flag is set and one where it is not.
proof fn lemma_power_factor(alpha: Ext)
    requires
        ecanonical(alpha),
    ensures
        power_factor(1, alpha) == alpha,
        power_factor(0, alpha) == eone(),
{
    assert(1 * ((alpha.c0 - 1) % (P as int)) == (alpha.c0 - 1) % (P as int));
    assert(0 * ((alpha.c0 - 1) % (P as int)) == 0);
    assert(1 * alpha.c1 == alpha.c1 && 1 * alpha.c2 == alpha.c2);
    assert(0 * alpha.c1 == 0 && 0 * alpha.c2 == 0);
}

proof fn lemma_power_block(l: LeafInput, i: int)
    requires
        leaf_shape(l),
        0 <= i < 68,
    ensures
        all_zero(power_block(l.publics(), i)),
{
    lemma_leaf_layout(l);
    lemma_leaf_elements(l);
    let pv = l.publics();
    let e = l.elements();
    let w = l.px.len();
    lemma_power_factor(l.alpha);
    assert(leaf_element(pv, 136 + i) == e[136 + i]);
    assert(leaf_element(pv, 136 + i + 1) == e[136 + (i + 1)]);
    assert(pv[18 + i] == leaf_flag(l, i));
    let p = epow(l.alpha, shorter(i as nat, w));
    lemma_epow_canonical(l.alpha, shorter(i as nat, w));
    lemma_emul_one(p);
    let q = epow(l.alpha, shorter((i + 1) as nat, w));
    assert(emul(p, power_factor(pv[18 + i], l.alpha)) == q);
    lemma_same_differences(q);
}

/// Flags and powers satisfy their part.
proof fn lemma_leaf_flag_part(l: LeafInput)
    requires
        leaf_shape(l),
    ensures
        all_zero(leaf_flag_part(l.publics())),
{
    lemma_leaf_layout(l);
    lemma_leaf_elements(l);
    let pv = l.publics();
    let e = l.elements();
    let f = |i: int| active_block(pv, i);
    let g = |i: int| power_block(pv, i);
    assert forall|i: int| 0 <= i < 68 implies all_zero(#[trigger] f(i)) by {
        lemma_active_block(l, i);
    }
    assert forall|i: int| 0 <= i < 68 implies all_zero(#[trigger] g(i)) by {
        lemma_power_block(l, i);
    }
    lemma_flat_all_zero(68, f);
    lemma_flat_all_zero(68, g);
    lemma_active_sum(l, 68);
    assert(pv[18 + 0int] == leaf_flag(l, 0));
    assert(leaf_element(pv, 136) == e[136 + 0int]);
    assert(leaf_element(pv, 204) == e[136 + 68int]);
    assert(leaf_element(pv, 205) == e[205]);
    assert(e[136 + 0int] == eone());
    assert(e[136 + 68int] == epow(l.alpha, l.px.len()));
    lemma_same_differences(eone());
    lemma_same_differences(e[205]);
    let s0 = flat(68, f);
    let s1 = seq![fsub(active_sum(pv, 68), pv[17])];
    let s2 = seq![fsub(pv[18], 1)];
    let s3 = limb_differences(leaf_element(pv, 136), eone());
    let s4 = flat(68, g);
    let s5 = limb_differences(
        emul(leaf_element(pv, 204), leaf_element(pv, 204)),
        leaf_element(pv, 205),
    );
    assert(all_zero(s1));
    assert(all_zero(s2));
    lemma_all_zero_concat(s0, s1);
    lemma_all_zero_concat(s0 + s1, s2);
    lemma_all_zero_concat(s0 + s1 + s2, s3);
    lemma_all_zero_concat(s0 + s1 + s2 + s3, s4);
    lemma_all_zero_concat(s0 + s1 + s2 + s3 + s4, s5);
}

/// Padding adds nothing to a combination.
pub proof fn lemma_padded_linear(alpha: Ext, px: Seq<int>, pz: Seq<Ext>, n: nat)
    requires
        pz.len() == px.len(),
        n <= 68,
    ensures
        deep_linear(alpha, padded_row(px), padded_elements(pz), n) == deep_linear(
            alpha,
            px,
            pz,
            shorter(n, px.len()),
        ),
    decreases n,
{
    if n > 0 {
        let m: nat = (n - 1) as nat;
        lemma_padded_linear(alpha, px, pz, m);
        if n > px.len() {
            let prev = deep_linear(alpha, px, pz, px.len());
            assert(esub(ebase(0), ezero()) == ezero());
            lemma_emul_zero(epow(alpha, m));
            lemma_linear_canonical(alpha, px, pz, px.len());
            assert(eadd(prev, ezero()) == prev);
        }
    }
}

proof fn lemma_emul_zero(a: Ext)
    ensures
        emul(a, ezero()) == ezero(),
{
    reveal(emul);
    assert(a.c0 * 0 == 0 && a.c1 * 0 == 0 && a.c2 * 0 == 0);
}

proof fn lemma_linear_canonical(alpha: Ext, px: Seq<int>, pz: Seq<Ext>, n: nat)
    ensures
        ecanonical(deep_linear(alpha, px, pz, n)),
{
}

/// The publics hold a running combination of `ppx` and `ppz` at the given elements.
pub open spec fn holds_combination(
    pv: Seq<int>,
    alpha: Ext,
    ppx: Seq<int>,
    ppz: Seq<Ext>,
    pzo: int,
    pow: int,
    acc: int,
) -> bool {
    &&& forall|i: int| 0 <= i < 68 ==> #[trigger] pv[86 + i] == ppx[i]
    &&& forall|i: int| 0 <= i < 68 ==> #[trigger] leaf_element(pv, pzo + i) == ppz[i]
    &&& forall|i: int| 0 <= i < 68 ==> #[trigger] leaf_element(pv, pow + i) == epow(alpha, i as nat)
    &&& forall|i: int|
        0 <= i < 68 ==> #[trigger] leaf_element(pv, acc + i) == deep_linear(
            alpha,
            ppx,
            ppz,
            (i + 1) as nat,
        )
}

proof fn lemma_horner_block(
    pv: Seq<int>,
    alpha: Ext,
    ppx: Seq<int>,
    ppz: Seq<Ext>,
    pzo: int,
    pow: int,
    acc: int,
    i: int,
)
    requires
        holds_combination(pv, alpha, ppx, ppz, pzo, pow, acc),
        0 <= i < 67,
    ensures
        all_zero(horner_block(pv, alpha, pzo, pow, acc, i)),
{
    let j: int = i + 1;
    assert(leaf_element(pv, pow + j) == epow(alpha, j as nat));
    assert(leaf_element(pv, acc + j) == deep_linear(alpha, ppx, ppz, (j + 1) as nat));
    assert(leaf_element(pv, pow + i) == epow(alpha, i as nat));
    assert(leaf_element(pv, acc + i) == deep_linear(alpha, ppx, ppz, (i + 1) as nat));
    assert(leaf_element(pv, pzo + j) == ppz[j]);
    assert(pv[86 + j] == ppx[j]);
    assert(pow + i + 1 == pow + j && acc + i + 1 == acc + j);
    let p = epow(alpha, j as nat);
    let s = deep_linear(alpha, ppx, ppz, (j + 1) as nat);
    lemma_same_differences(p);
    lemma_same_differences(s);
    lemma_all_zero_concat(limb_differences(p, p), limb_differences(s, s));
}

/// The first sum of a combination is its first term.
proof fn lemma_first_sum(alpha: Ext, ppx: Seq<int>, ppz: Seq<Ext>)
    ensures
        deep_linear(alpha, ppx, ppz, 1) == esub(ebase(ppx[0]), ppz[0]),
{
    reveal_with_fuel(deep_linear, 2);
    let c0 = esub(ebase(ppx[0]), ppz[0]);
    assert(epow(alpha, 0) == eone());
    lemma_emul_one(c0);
    assert(eadd(ezero(), c0) == c0);
}

/// A running combination satisfies its constraints.
proof fn lemma_horner(
    pv: Seq<int>,
    alpha: Ext,
    ppx: Seq<int>,
    ppz: Seq<Ext>,
    pzo: int,
    pow: int,
    acc: int,
    linear: Ext,
)
    requires
        holds_combination(pv, alpha, ppx, ppz, pzo, pow, acc),
        linear == deep_linear(alpha, ppx, ppz, 68),
    ensures
        all_zero(horner_constraints(pv, alpha, pzo, pow, acc, linear)),
{
    let f = |i: int| horner_block(pv, alpha, pzo, pow, acc, i);
    assert forall|i: int| 0 <= i < 67 implies all_zero(#[trigger] f(i)) by {
        lemma_horner_block(pv, alpha, ppx, ppz, pzo, pow, acc, i);
    }
    lemma_flat_all_zero(67, f);
    lemma_first_sum(alpha, ppx, ppz);
    assert(leaf_element(pv, pow + 0) == epow(alpha, 0));
    assert(leaf_element(pv, acc + 0) == deep_linear(alpha, ppx, ppz, 1));
    assert(leaf_element(pv, pzo + 0) == ppz[0]);
    assert(leaf_element(pv, acc + 67) == deep_linear(alpha, ppx, ppz, 68));
    assert(pv[86 + 0int] == ppx[0]);
    let c0 = leaf_term(pv, pzo, 0);
    lemma_same_differences(eone());
    lemma_same_differences(c0);
    lemma_same_differences(linear);
    let s0 = limb_differences(leaf_element(pv, pow), eone());
    let s1 = limb_differences(leaf_element(pv, acc), c0);
    let s2 = flat(67, f);
    let s3 = limb_differences(leaf_element(pv, acc + 67), linear);
    lemma_all_zero_concat(s0, s1);
    lemma_all_zero_concat(s0 + s1, s2);
    lemma_all_zero_concat(s0 + s1 + s2, s3);
}

/// The publics of a leaf reduction hold both running combinations.
proof fn lemma_leaf_combinations(l: LeafInput)
    requires
        leaf_shape(l),
    ensures
        holds_combination(
            l.publics(),
            l.alpha,
            padded_row(l.px),
            padded_elements(l.pz_local),
            0,
            212,
            280,
        ),
        holds_combination(
            l.publics(),
            l.alpha,
            padded_row(l.px),
            padded_elements(l.pz_next),
            68,
            354,
            422,
        ),
{
    lemma_leaf_layout(l);
    lemma_leaf_elements(l);
    let pv = l.publics();
    let e = l.elements();
    assert forall|i: int| 0 <= i < 68 implies #[trigger] leaf_element(pv, 0 + i) == padded_elements(
        l.pz_local,
    )[i] by {
        assert(e[0 + i] == padded_elements(l.pz_local)[i]);
    }
    assert forall|i: int| 0 <= i < 68 implies #[trigger] leaf_element(pv, 68 + i)
        == padded_elements(l.pz_next)[i] by {
        assert(e[68 + i] == padded_elements(l.pz_next)[i]);
    }
    assert forall|i: int| 0 <= i < 68 implies #[trigger] leaf_element(pv, 212 + i) == epow(
        l.alpha,
        i as nat,
    ) by {
        assert(e[212 + i] == all_powers(l.alpha)[i]);
    }
    assert forall|i: int| 0 <= i < 68 implies #[trigger] leaf_element(pv, 354 + i) == epow(
        l.alpha,
        i as nat,
    ) by {
        assert(e[354 + i] == all_powers(l.alpha)[i]);
    }
    assert forall|i: int| 0 <= i < 68 implies #[trigger] leaf_element(pv, 280 + i) == deep_linear(
        l.alpha,
        padded_row(l.px),
        padded_elements(l.pz_local),
        (i + 1) as nat,
    ) by {
        assert(e[280 + i] == running_sums(l.alpha, l.px, l.pz_local)[i]);
    }
    assert forall|i: int| 0 <= i < 68 implies #[trigger] leaf_element(pv, 422 + i) == deep_linear(
        l.alpha,
        padded_row(l.px),
        padded_elements(l.pz_next),
        (i + 1) as nat,
    ) by {
        assert(e[422 + i] == running_sums(l.alpha, l.px, l.pz_next)[i]);
    }
}

/// The vanishing and quotient constraints of one reduction vanish.
proof fn lemma_reduction(l: LeafInput, at: (Ext, Ext), pz: Seq<Ext>, red: Seq<Ext>, d: int, i: Ext)
    requires
        leaf_shape(l),
        pz.len() == l.px.len(),
        d == 206 || d == 348,
        red == crate::deep_ro_leaf_trace_air::reduction_elements(
            l.alpha,
            l.sx,
            l.sy,
            at,
            l.px,
            pz,
        ),
        forall|j: int| 0 <= j < 6 ==> #[trigger] l.elements()[d + j] == red[j],
        ecanonical(i),
        emul(vanishing_norm(l.sx, l.sy, at), i) == eone(),
    ensures
        all_zero(leaf_vanishing(l.publics(), at, d)),
        all_zero(leaf_quotient(l.publics(), d)),
        leaf_element(l.publics(), d + 4) == deep_linear(l.alpha, l.px, pz, l.px.len()),
        leaf_element(l.publics(), d + 5) == deep_quotient(l.alpha, l.sx, l.sy, at, l.px, pz),
{
    lemma_leaf_layout(l);
    lemma_leaf_elements(l);
    let pv = l.publics();
    let e = l.elements();
    assert(leaf_element(pv, 204) == e[136 + 68int]);
    assert(leaf_element(pv, d) == e[d + 0] && leaf_element(pv, d + 1) == e[d + 1]);
    assert(leaf_element(pv, d + 2) == e[d + 2] && leaf_element(pv, d + 3) == e[d + 3]);
    assert(leaf_element(pv, d + 4) == e[d + 4] && leaf_element(pv, d + 5) == e[d + 5]);
    let (re, im) = vanishing_parts(l.sx, l.sy, at);
    let numer = esub(re, emul(epow(l.alpha, l.px.len()), im));
    let denom = vanishing_norm(l.sx, l.sy, at);
    let linear = deep_linear(l.alpha, l.px, pz, l.px.len());
    let out = deep_quotient(l.alpha, l.sx, l.sy, at, l.px, pz);
    lemma_emul_canonical(emul(numer, einv(denom)), linear);
    lemma_divided(out, denom, numer, linear, i);
    lemma_same_differences(re);
    lemma_same_differences(im);
    lemma_same_differences(numer);
    lemma_same_differences(denom);
    lemma_same_differences(emul(numer, linear));
    let t1 = limb_differences(re, re);
    let t2 = limb_differences(im, im);
    let t3 = limb_differences(numer, numer);
    let t4 = limb_differences(denom, denom);
    lemma_all_zero_concat(t1, t2);
    lemma_all_zero_concat(t1 + t2, t3);
    lemma_all_zero_concat(t1 + t2 + t3, t4);
    assert(leaf_vanishing(pv, at, d) == t1 + t2 + t3 + t4);
}

/// The publics of a leaf reduction satisfy the leaf system, whatever its width.
pub proof fn lemma_leaf_publics_satisfy(l: LeafInput, i0: Ext, i1: Ext)
    requires
        leaf_shape(l),
        ecanonical(i0),
        ecanonical(i1),
        emul(vanishing_norm(l.sx, l.sy, l.at()), i0) == eone(),
        emul(vanishing_norm(l.sx, l.sy, l.atn()), i1) == eone(),
    ensures
        all_zero(DeepRoLeafTraceAir.public_constraints(l.publics())),
{
    lemma_leaf_flag_part(l);
    lemma_leaf_layout(l);
    lemma_leaf_elements(l);
    let pv = l.publics();
    let e = l.elements();
    lemma_reduction(l, l.at(), l.pz_local, l.red0(), 206, i0);
    lemma_reduction(l, l.atn(), l.pz_next, l.red1(), 348, i1);
    lemma_leaf_combinations(l);
    lemma_padded_linear(l.alpha, l.px, l.pz_local, 68);
    lemma_padded_linear(l.alpha, l.px, l.pz_next, 68);
    let ppx = padded_row(l.px);
    lemma_horner(
        pv,
        l.alpha,
        ppx,
        padded_elements(l.pz_local),
        0,
        212,
        280,
        leaf_element(pv, 210),
    );
    lemma_horner(
        pv,
        l.alpha,
        ppx,
        padded_elements(l.pz_next),
        68,
        354,
        422,
        leaf_element(pv, 352),
    );
    assert(leaf_element(pv, 205) == e[205]);
    assert(leaf_element(pv, 490) == e[490]);
    assert(leaf_element(pv, 491) == e[491]);
    lemma_escale_is_emul(l.lambda, v_n(l.sx, l.log_n));
    lemma_same_differences(l.combined());
    lemma_same_differences(l.out());
    let s0 = leaf_vanishing(pv, l.at(), 206);
    let s1 = leaf_vanishing(pv, l.atn(), 348);
    let s2 = horner_constraints(pv, l.alpha, 0, 212, 280, leaf_element(pv, 210));
    let s3 = horner_constraints(pv, l.alpha, 68, 354, 422, leaf_element(pv, 352));
    let s4 = leaf_quotient(pv, 206);
    let s5 = leaf_quotient(pv, 348);
    let s6 = limb_differences(l.combined(), l.combined());
    let s7 = limb_differences(l.out(), l.out());
    lemma_all_zero_concat(s0, s1);
    lemma_all_zero_concat(s0 + s1, s2);
    lemma_all_zero_concat(s0 + s1 + s2, s3);
    lemma_all_zero_concat(s0 + s1 + s2 + s3, s4);
    lemma_all_zero_concat(s0 + s1 + s2 + s3 + s4, s5);
    lemma_all_zero_concat(s0 + s1 + s2 + s3 + s4 + s5, s6);
    lemma_all_zero_concat(s0 + s1 + s2 + s3 + s4 + s5 + s6, s7);
    assert(leaf_reduction_part(pv) == s0 + s1 + s2 + s3 + s4 + s5 + s6 + s7);
    lemma_all_zero_concat(leaf_flag_part(pv), leaf_reduction_part(pv));
}

} // verus!
