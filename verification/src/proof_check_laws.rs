//! What single checks show: of hashed paths, of reductions, of the evaluation point and of
//! aggregation rows.
use vstd::prelude::*;

use crate::agg_constraints::agg_rows_ok;
use crate::bits::exp2;
use crate::checks::lemma_first_some_none;
use crate::deep_ro_air::{deep_ro_verify_outcome, DeepRoAir, DeepRoStepProof};
use crate::deep_ro_leaf_trace_air::{
    leaf_verify_outcome, DeepRoLeafTraceAir, DeepRoLeafTraceStepProof,
};
use crate::deep_ro_native::{
    deep_linear, deep_quotient, projective_denominator, projective_point, vanishing_norm,
    vanishing_parts,
};
use crate::ext::{eadd, ebase, ecanonical, emul, eone, epow, esquare, esub, ezero, Ext};
use crate::ext_ring::lemma_emul_canonical;
use crate::field::{vals, Val};
use crate::fri_fs_replay::{
    is_replay, recover_report, recovered_index, AggFriChallenges, RecoverError,
};
use crate::fri_mmcs_group_m4b::{
    group_fold_outcome, group_verify_outcome, stmt_report, KeccakGroupFoldProof, MmcsGroupPathAir,
    MmcsPathStatement,
};
use crate::fri_mmcs_path_m4a::{
    batched_path_shape, batched_prove_outcome, batched_verify_outcome, BatchedPathError,
    FriMmcsBatchedPathProof, MmcsBatchedPathAir,
};
use crate::fri_ood::{ood_outcome, ood_proof_outcome, trace_vanishing, OodError};
use crate::keccak256_air::{
    sponge_prove_outcome, sponge_publics, sponge_verify_outcome, Keccak256SpongeAir,
    Keccak256StarkProof,
};
use crate::keccak_f_native::{keccak256_spec, row_bytes};
use crate::keccak_merkle_air::{
    claimed_msg, layer_msg, merkle_prove_outcome, merkle_verify_outcome, KeccakMerklePathProof,
    MerkleFoldAir, MerkleFoldError,
};
use crate::matrix::RowMajorMatrix;
use crate::merkle::{path_digest, path_root};
use crate::merkle_keccak::{keccak_leaf, keccak_pair};
use crate::path_check_laws::{lemma_bit_parity, lemma_root_reached, leads_to, row_digest};
use crate::pcs_view::{FriParamsView, StarkProofView};
use crate::proof_system::verifier_verdict;

verus! {

/// The Keccak digest of a digest beside its sibling: the side is the parity of the position.
pub open spec fn hashed_beside(position: int, d: Seq<u8>, sibling: Seq<u8>) -> Seq<u8> {
    if position % 2 == 0 {
        keccak256_spec(d + sibling)
    } else {
        keccak256_spec(sibling + d)
    }
}

/// `d` lists the Keccak digests from a row at a position up to a root.
pub open spec fn hashes_up(
    row: Seq<int>,
    siblings: Seq<[u8; 32]>,
    position: int,
    d: Seq<Seq<u8>>,
) -> bool {
    &&& d.len() == siblings.len() + 1
    &&& d[0] == keccak256_spec(row_bytes(row))
    &&& forall|k: int|
        0 <= k < siblings.len() ==> d[k + 1] == hashed_beside(
            position / (exp2(k as nat) as int),
            d[k],
            (#[trigger] siblings[k])@,
        )
}

/// The siblings lead from a row at a position to a root, by Keccak digests.
pub open spec fn hashes_to(
    row: Seq<int>,
    siblings: Seq<[u8; 32]>,
    position: int,
    root: Seq<u8>,
) -> bool {
    exists|d: Seq<Seq<u8>>| #[trigger] hashes_up(row, siblings, position, d) && d.last() == root
}

/// The digests of a Keccak path, level by level.
pub proof fn lemma_keccak_path(row: Seq<int>, siblings: Seq<[u8; 32]>, position: int)
    requires
        0 <= position,
    ensures
        hashes_up(
            row,
            siblings,
            position,
            Seq::new(
                siblings.len() + 1,
                |k: int|
                    path_digest(keccak_pair(), keccak_leaf(row), siblings, position, k as nat),
            ),
        ),
        hashes_to(
            row,
            siblings,
            position,
            path_root(keccak_pair(), keccak_leaf(row), siblings, position),
        ),
{
    let d = Seq::new(
        siblings.len() + 1,
        |k: int| path_digest(keccak_pair(), keccak_leaf(row), siblings, position, k as nat),
    );
    assert forall|k: int| 0 <= k < siblings.len() implies d[k + 1] == hashed_beside(
        position / (exp2(k as nat) as int),
        d[k],
        (#[trigger] siblings[k])@,
    ) by {
        lemma_bit_parity(position, k as nat);
    }
    assert(hashes_up(row, siblings, position, d));
}

/// A group that passes: each of its statements hashes to the root it claims, all of one depth
/// and width, and the verifier accepted the group's bytes.
pub proof fn lemma_accepted_group<V: Fn(&MmcsGroupPathAir, &[Val], &[u8]) -> bool>(
    verifier: V,
    stmts: Seq<MmcsPathStatement>,
    p: KeccakGroupFoldProof,
)
    requires
        group_verify_outcome(verifier, stmts, p, true),
    ensures
        1 <= stmts.len() <= 128,
        stmts.len() == p.path_count,
        1 <= p.depth <= 20,
        forall|i: int|
            0 <= i < stmts.len() ==> {
                let s = #[trigger] stmts[i];
                &&& s.row@.len() == p.leaf_width
                &&& s.siblings@.len() == p.depth
                &&& hashes_to(vals(s.row@), s.siblings@, s.index as int, s.root@)
            },
        exists|a: &MmcsGroupPathAir, v: &[Val], b: &[u8]| #[trigger]
            call_ensures(verifier, (a, v, b), true) && b@ == p.group_stark@ && a.path_count
                == stmts.len() && a.depth == p.depth,
{
    assert forall|i: int| 0 <= i < stmts.len() implies {
        let s = #[trigger] stmts[i];
        &&& s.row@.len() == p.leaf_width
        &&& s.siblings@.len() == p.depth
        &&& hashes_to(vals(s.row@), s.siblings@, s.index as int, s.root@)
    } by {
        let s = stmts[i];
        lemma_keccak_path(vals(s.row@), s.siblings@, s.index as int);
    }
}

/// A group with a statement that hashes elsewhere does not pass.
pub proof fn lemma_astray_group_refused<V: Fn(&MmcsGroupPathAir, &[Val], &[u8]) -> bool>(
    verifier: V,
    stmts: Seq<MmcsPathStatement>,
    p: KeccakGroupFoldProof,
    i: int,
)
    requires
        0 <= i < stmts.len(),
        !hashes_to(vals(stmts[i].row@), stmts[i].siblings@, stmts[i].index as int, stmts[i].root@),
    ensures
        !group_verify_outcome(verifier, stmts, p, true),
{
    if group_verify_outcome(verifier, stmts, p, true) {
        lemma_accepted_group(verifier, stmts, p);
    }
}

/// A path proof whose digests fit: its row hashes to the root through them.
pub proof fn lemma_batched_path_fits(
    row: Seq<int>,
    siblings: Seq<[u8; 32]>,
    position: int,
    root: Seq<u8>,
    p: FriMmcsBatchedPathProof,
)
    requires
        0 <= position,
        batched_path_shape(row, siblings, position, root, p),
    ensures
        hashes_to(row, siblings, position, root),
        siblings.len() == p.depth,
        1 <= siblings.len() <= 20,
        p.layer_digests@.len() == siblings.len(),
        p.layer_digests@.last()@ == root,
        p.leaf_digest@ == keccak256_spec(row_bytes(row)),
{
    lemma_keccak_path(row, siblings, position);
}

/// A reduction that passes: what it gives, and the correction added back, times what the
/// reduction is divided by, is the combination of its row's differences times the vanishing
/// parts.
pub open spec fn reduces(
    alpha: Ext,
    sx: int,
    sy: int,
    zeta: Ext,
    px: Seq<int>,
    pz: Seq<Ext>,
    i: Ext,
    value: Ext,
) -> bool {
    let at = projective_point(zeta);
    let (re, im) = vanishing_parts(sx, sy, at);
    ecanonical(i) && emul(vanishing_norm(sx, sy, at), i) == eone() ==> emul(
        value,
        vanishing_norm(sx, sy, at),
    ) == emul(
        esub(re, emul(epow(alpha, px.len()), im)),
        deep_linear(alpha, px, pz, px.len()),
    )
}

/// An accepted width-three reduction.
pub proof fn lemma_accepted_reduction<V: Fn(&DeepRoAir, &[Val], &[u8]) -> bool>(
    verifier: V,
    s: DeepRoStepProof,
    i: Ext,
)
    requires
        deep_ro_verify_outcome(verifier, s, true),
    ensures
        exists|value: Ext|
            {
                &&& #[trigger] reduces(
                    s.alpha(),
                    s.sx@,
                    s.sy@,
                    s.zeta(),
                    vals(s.px@),
                    s.pz(),
                    i,
                    value,
                )
                &&& ecanonical(value)
                &&& s.out() == esub(value, emul(s.lambda(), ebase(s.v_n@)))
            },
        projective_denominator(s.zeta()) != ezero(),
        vanishing_norm(s.sx@, s.sy@, projective_point(s.zeta())) != ezero(),
        s.v_n@ == crate::circle::v_n(s.sx@, s.log_n as nat),
        verifier_verdict(verifier, DeepRoAir, s.publics(), s.deep_stark@, true),
{
    let at = projective_point(s.zeta());
    let px = vals(s.px@);
    let value = deep_quotient(s.alpha(), s.sx@, s.sy@, at, px, s.pz());
    lemma_quotient_canonical(s.alpha(), s.sx@, s.sy@, at, px, s.pz());
    if ecanonical(i) && emul(vanishing_norm(s.sx@, s.sy@, at), i) == eone() {
        crate::reduction_laws::lemma_reduction_times_norm(
            s.alpha(),
            s.sx@,
            s.sy@,
            at,
            px,
            s.pz(),
            i,
        );
    }
    assert(reduces(s.alpha(), s.sx@, s.sy@, s.zeta(), px, s.pz(), i, value));
}

/// A reduction is canonical.
proof fn lemma_quotient_canonical(
    alpha: Ext,
    sx: int,
    sy: int,
    at: (Ext, Ext),
    px: Seq<int>,
    pz: Seq<Ext>,
)
    ensures
        ecanonical(deep_quotient(alpha, sx, sy, at, px, pz)),
{
    let (re, im) = vanishing_parts(sx, sy, at);
    lemma_emul_canonical(
        emul(
            esub(re, emul(epow(alpha, px.len()), im)),
            crate::ext_ring::einv(vanishing_norm(sx, sy, at)),
        ),
        deep_linear(
            alpha,
            px,
            pz,
            crate::deep_ro_native::shorter(px.len(), pz.len()),
        ),
    );
}

/// An accepted leaf reduction: the row reduced at the evaluation point, and with the weight of
/// twice its columns reduced at the next point, less the correction.
pub proof fn lemma_accepted_leaf_reduction<V: Fn(&DeepRoLeafTraceAir, &[Val], &[u8]) -> bool>(
    verifier: V,
    s: DeepRoLeafTraceStepProof,
    i0: Ext,
    i1: Ext,
)
    requires
        leaf_verify_outcome(verifier, s, true),
    ensures
        ({
            let l = s.input();
            &&& 1 <= s.width <= 68
            &&& l.px.len() == s.width
            &&& l.pz_local.len() == s.width
            &&& l.pz_next.len() == s.width
            &&& s.v_n@ == crate::circle::v_n(s.sx@, s.log_n as nat)
            &&& exists|here: Ext, next: Ext|
                {
                    &&& #[trigger] reduces(
                        l.alpha,
                        l.sx,
                        l.sy,
                        l.zeta,
                        l.px,
                        l.pz_local,
                        i0,
                        here,
                    )
                    &&& #[trigger] reduces(
                        l.alpha,
                        l.sx,
                        l.sy,
                        l.zeta_next,
                        l.px,
                        l.pz_next,
                        i1,
                        next,
                    )
                    &&& s.out() == esub(
                        eadd(here, emul(epow(l.alpha, 2 * l.px.len()), next)),
                        emul(l.lambda, ebase(s.v_n@)),
                    )
                }
        }),
        verifier_verdict(
            verifier,
            DeepRoLeafTraceAir,
            s.input().publics(),
            s.deep_stark@,
            true,
        ),
{
    let l = s.input();
    let at = projective_point(l.zeta);
    let atn = projective_point(l.zeta_next);
    let here = deep_quotient(l.alpha, l.sx, l.sy, at, l.px, l.pz_local);
    let next = deep_quotient(l.alpha, l.sx, l.sy, atn, l.px, l.pz_next);
    crate::deep_ro_native::lemma_epow_add(l.alpha, l.px.len(), l.px.len());
    assert(l.px.len() + l.px.len() == 2 * l.px.len());
    if ecanonical(i0) && emul(vanishing_norm(l.sx, l.sy, at), i0) == eone() {
        crate::reduction_laws::lemma_reduction_times_norm(
            l.alpha,
            l.sx,
            l.sy,
            at,
            l.px,
            l.pz_local,
            i0,
        );
    }
    if ecanonical(i1) && emul(vanishing_norm(l.sx, l.sy, atn), i1) == eone() {
        crate::reduction_laws::lemma_reduction_times_norm(
            l.alpha,
            l.sx,
            l.sy,
            atn,
            l.px,
            l.pz_next,
            i1,
        );
    }
    assert(reduces(l.alpha, l.sx, l.sy, l.zeta, l.px, l.pz_local, i0, here));
    assert(reduces(l.alpha, l.sx, l.sy, l.zeta_next, l.px, l.pz_next, i1, next));
}

/// Rows of an aggregation that pass are equal, have 66 columns, and accept both children; and
/// all such rows pass.
pub proof fn lemma_aggregation_rows(row0: Seq<int>, row1: Seq<int>)
    ensures
        agg_rows_ok(row0, row1) == (row0 == row1 && row0.len() == 66 && row0[64] == 1 && row0[65]
            == 1),
{
    if agg_rows_ok(row0, row1) {
        assert forall|i: int| 0 <= i < row0.len() implies row0[i] == row1[i] by {
            if i < 64 {
            } else if i == 64 {
            } else {
                assert(i == 65);
            }
        }
        assert(row0 =~= row1);
    }
}

/// The openings of a proof can be checked at its evaluation point.
pub open spec fn checkable(proof: StarkProofView, chal: AggFriChallenges, log_chunks: nat) -> bool {
    &&& 1 <= proof.degree_bits <= 30
    &&& eadd(eone(), esquare(chal.zeta@)) != ezero()
    &&& trace_vanishing(proof.degree_bits as nat, chal.zeta@) != ezero()
    &&& proof.quotient_chunks@.len() == exp2(log_chunks)
    &&& forall|i: int|
        0 <= i < proof.quotient_chunks@.len() ==> (#[trigger] proof.quotient_chunks@[i])@.len()
            == 3
    &&& proof.trace_next is Some
}

/// The check at the evaluation point passes where the openings can be checked and the check of
/// the folded constraints says so, and nowhere else; a check that fails is told from openings
/// that cannot be checked.
pub proof fn lemma_evaluation_check<C: Fn(&StarkProofView, &AggFriChallenges) -> bool>(
    check: C,
    proof: StarkProofView,
    chal: AggFriChallenges,
    log_chunks: nat,
    r: Result<(), OodError>,
)
    requires
        ood_outcome(check, proof, chal, log_chunks, r),
    ensures
        r is Ok ==> checkable(proof, chal, log_chunks) && call_ensures(
            check,
            (&proof, &chal),
            true,
        ),
        r == Err::<(), OodError>(OodError::Mismatch) ==> checkable(proof, chal, log_chunks)
            && call_ensures(check, (&proof, &chal), false),
        checkable(proof, chal, log_chunks) ==> r is Ok || r == Err::<(), OodError>(
            OodError::Mismatch,
        ),
        checkable(proof, chal, log_chunks) && !call_ensures(check, (&proof, &chal), false)
            ==> r is Ok,
{
}

/// A proof that passes at its evaluation point passes under the challenges drawn for it.
pub proof fn lemma_evaluation_check_passed<C: Fn(&StarkProofView, &AggFriChallenges) -> bool>(
    check: C,
    proof: StarkProofView,
    width: usize,
    log_chunks: nat,
    params: FriParamsView,
)
    requires
        ood_proof_outcome(check, proof, width, log_chunks, params, Ok(())),
    ensures
        exists|chal: AggFriChallenges|
            {
                &&& #[trigger] is_replay(chal, proof, params)
                &&& checkable(proof, chal, log_chunks)
                &&& call_ensures(check, (&proof, &chal), true)
            },
{
    let r = Ok::<(), OodError>(());
    let chal = choose|chal: AggFriChallenges| #[trigger]
        is_replay(chal, proof, params) && ood_outcome(check, proof, chal, log_chunks, r);
    lemma_evaluation_check(check, proof, chal, log_chunks, r);
}

/// A recovered position is the only one in the tree from which the row leads to the root.
pub proof fn lemma_recovered_position(row: Seq<Val>, siblings: Seq<[u8; 32]>, root: Seq<u8>)
    requires
        recover_report(row, siblings, root) is None,
    ensures
        ({
            let i = recovered_index(row, siblings, root);
            &&& 0 <= i < exp2((siblings.len() as u32) as nat)
            &&& leads_to(row_digest(vals(row)), siblings, i, root)
            &&& forall|j: int|
                0 <= j < exp2((siblings.len() as u32) as nat) && #[trigger] leads_to(
                    row_digest(vals(row)),
                    siblings,
                    j,
                    root,
                ) ==> j == i
        }),
{
    let n = exp2((siblings.len() as u32) as nat) as int;
    let i = recovered_index(row, siblings, root);
    let w = choose|w: int|
        0 <= w < n && crate::fri_fs_replay::leads_to(row, siblings, root, w);
    assert(crate::fri_fs_replay::leads_to(row, siblings, root, w));
    assert(0 <= i < n && crate::fri_fs_replay::leads_to(row, siblings, root, i));
    lemma_root_reached(row_digest(vals(row)), siblings, i, root);
    assert forall|j: int|
        0 <= j < n && #[trigger] leads_to(
            row_digest(vals(row)),
            siblings,
            j,
            root,
        ) implies j == i by {
        lemma_root_reached(row_digest(vals(row)), siblings, j, root);
        assert(crate::fri_fs_replay::leads_to(row, siblings, root, j));
    }
}

/// Where no position is recovered there is none that leads to the root, or more than one.
pub proof fn lemma_no_recovered_position(
    row: Seq<Val>,
    siblings: Seq<[u8; 32]>,
    root: Seq<u8>,
    j: int,
)
    requires
        recover_report(row, siblings, root) == Some(RecoverError::NoMatch),
        0 <= j < exp2((siblings.len() as u32) as nat),
    ensures
        !leads_to(row_digest(vals(row)), siblings, j, root),
{
    lemma_root_reached(row_digest(vals(row)), siblings, j, root);
    if leads_to(row_digest(vals(row)), siblings, j, root) {
        assert(crate::fri_fs_replay::leads_to(row, siblings, root, j));
    }
}

/// A path proof that passes: its row hashes to the root, and the verifier accepted its bytes.
pub proof fn lemma_accepted_batched_path<V: Fn(&MmcsBatchedPathAir, &[Val], &[u8]) -> bool>(
    verifier: V,
    row: Seq<int>,
    siblings: Seq<[u8; 32]>,
    index: usize,
    root: Seq<u8>,
    p: FriMmcsBatchedPathProof,
)
    requires
        batched_verify_outcome(verifier, row, siblings, index, root, p, true),
    ensures
        hashes_to(row, siblings, index as int, root),
        row.len() == p.leaf_width,
        siblings.len() == p.depth,
        1 <= siblings.len() <= 20,
        exists|a: &MmcsBatchedPathAir, v: &[Val], b: &[u8]| #[trigger]
            call_ensures(verifier, (a, v, b), true) && b@ == p.path_stark@ && a.depth
                == siblings.len() && a.leaf_msg_len == 4 * row.len(),
{
    lemma_batched_path_fits(row, siblings, index as int, root, p);
}

/// A path proof that is made: its row hashes to the root, and its digests fit; and none is made
/// of a row that hashes elsewhere.
pub proof fn lemma_made_batched_path<
    F: Fn(&MmcsBatchedPathAir, &RowMajorMatrix, &[Val]) -> Result<Vec<u8>, String>,
>(
    prover: F,
    row: Seq<int>,
    siblings: Seq<[u8; 32]>,
    index: usize,
    root: Seq<u8>,
    r: Result<FriMmcsBatchedPathProof, BatchedPathError>,
)
    requires
        batched_prove_outcome(prover, row, siblings, index, root, r),
    ensures
        r matches Ok(p) ==> hashes_to(row, siblings, index as int, root) && batched_path_shape(
            row,
            siblings,
            index as int,
            root,
            p,
        ) && 3 <= row.len() < 68 && 1 <= siblings.len() <= 20,
        !hashes_to(row, siblings, index as int, root) ==> r is Err,
{
    lemma_keccak_path(row, siblings, index as int);
}

/// A group that is made of statements fits them: each hashes to the root it claims.
pub proof fn lemma_made_group<
    F: Fn(&MmcsGroupPathAir, &RowMajorMatrix, &[Val]) -> Result<Vec<u8>, String>,
>(prover: F, stmts: Seq<MmcsPathStatement>, p: KeccakGroupFoldProof, i: int)
    requires
        group_fold_outcome(prover, stmts, Ok(p)),
        0 <= i < stmts.len(),
    ensures
        p.path_count == stmts.len(),
        1 <= stmts.len() <= 128,
        stmts[i].siblings@.len() == p.depth,
        stmts[i].row@.len() == p.leaf_width,
        3 <= p.leaf_width < 68,
        hashes_to(vals(stmts[i].row@), stmts[i].siblings@, stmts[i].index as int, stmts[i].root@),
{
    let f = |p: int| stmt_report(stmts, p);
    lemma_first_some_none(stmts.len(), f, i);
    assert(stmt_report(stmts, i) is None);
    lemma_keccak_path(vals(stmts[i].row@), stmts[i].siblings@, stmts[i].index as int);
}

/// A verifier of hash proofs that accepts only true digests.
pub open spec fn accepts_true_digests<V: Fn(&Keccak256SpongeAir, &[Val], &[u8]) -> bool>(
    verifier: V,
) -> bool {
    forall|msg: Seq<u8>, p: Keccak256StarkProof|
        #[trigger] sponge_verify_outcome(verifier, msg, p, true) ==> p.digest@ == keccak256_spec(
            msg,
        )
}

/// A path of proved hashes that passes, under a verifier that accepts only true digests: the row
/// has the aggregation width and hashes to the root over three levels.
pub proof fn lemma_accepted_merkle_path<
    V: Fn(&Keccak256SpongeAir, &[Val], &[u8]) -> bool,
    W: Fn(&MerkleFoldAir, &[Val], &[u8]) -> bool,
>(
    sponge_verifier: V,
    fold_verifier: W,
    row: Seq<Val>,
    siblings: Seq<[u8; 32]>,
    index: usize,
    root: Seq<u8>,
    p: KeccakMerklePathProof,
)
    requires
        merkle_verify_outcome(
            sponge_verifier,
            fold_verifier,
            row,
            siblings,
            index,
            root,
            p,
            true,
        ),
        accepts_true_digests(sponge_verifier),
    ensures
        row.len() == 66,
        siblings.len() == 3,
        hashes_to(vals(row), siblings, index as int, root),
        exists|a: &MerkleFoldAir, v: &[Val], b: &[u8]| #[trigger]
            call_ensures(fold_verifier, (a, v, b), true) && b@ == p.fold_stark@,
{
    let at = index as int;
    let d = seq![
        p.leaf_digest@,
        p.layer_digests@[0]@,
        p.layer_digests@[1]@,
        p.layer_digests@[2]@,
    ];
    assert(p.leaf_keccak.digest@ == keccak256_spec(row_bytes(vals(row))));
    assert forall|k: int| 0 <= k < siblings.len() implies d[k + 1] == hashed_beside(
        at / (exp2(k as nat) as int),
        d[k],
        (#[trigger] siblings[k])@,
    ) by {
        lemma_bit_parity(at, k as nat);
        let c = p.compress_starks@[k];
        assert(sponge_verify_outcome(
            sponge_verifier,
            claimed_msg(p, siblings, at, k),
            c,
            true,
        ));
        assert(c.digest@ == p.layer_digests@[k]@);
        assert(d[k + 1] == p.layer_digests@[k]@);
        assert(k > 0 ==> d[k] == p.layer_digests@[k - 1]@);
    }
    assert(hashes_up(vals(row), siblings, at, d));
    assert(d.last() == root);
}

/// A path of proved hashes that is made: the row has the aggregation width and hashes to the root
/// over three levels, through the digests it carries; and none is made of a row that hashes
/// elsewhere.
pub proof fn lemma_made_merkle_path<
    F: Fn(&Keccak256SpongeAir, &RowMajorMatrix, &[Val]) -> Result<Vec<u8>, String>,
    G: Fn(&MerkleFoldAir, &RowMajorMatrix, &[Val]) -> Result<Vec<u8>, String>,
>(
    sponge_prover: F,
    fold_prover: G,
    row: Seq<Val>,
    siblings: Seq<[u8; 32]>,
    index: usize,
    root: Seq<u8>,
    r: Result<KeccakMerklePathProof, MerkleFoldError>,
)
    requires
        merkle_prove_outcome(sponge_prover, fold_prover, row, siblings, index, root, r),
    ensures
        r matches Ok(p) ==> {
            &&& row.len() == 66
            &&& siblings.len() == 3
            &&& hashes_to(vals(row), siblings, index as int, root)
            &&& p.leaf_digest@ == keccak256_spec(row_bytes(vals(row)))
            &&& p.leaf_keccak.digest@ == p.leaf_digest@
            &&& p.layer_digests@.len() == 3
            &&& p.compress_starks@.len() == 3
            &&& forall|i: int|
                0 <= i < 3 ==> (#[trigger] p.compress_starks@[i]).digest@ == p.layer_digests@[i]@
            &&& p.layer_digests@[2]@ == root
        },
        !hashes_to(vals(row), siblings, index as int, root) ==> r is Err,
        r == Err::<KeccakMerklePathProof, MerkleFoldError>(MerkleFoldError::RowWidth) <==> row.len()
            != 66,
{
    let at = index as int;
    lemma_keccak_path(vals(row), siblings, at);
    if let Ok(p) = r {
        let leaf = keccak_leaf(vals(row));
        assert forall|i: int| 0 <= i < 3 implies (#[trigger] p.compress_starks@[i]).digest@
            == p.layer_digests@[i]@ by {
            assert(sponge_prove_outcome(
                sponge_prover,
                layer_msg(leaf, siblings, at, i),
                Ok(p.compress_starks@[i]),
            ));
            assert(p.layer_digests@[i]@ == path_digest(
                keccak_pair(),
                leaf,
                siblings,
                at,
                (i + 1) as nat,
            ));
        }
        assert(p.layer_digests@[2]@ == path_digest(keccak_pair(), leaf, siblings, at, 3));
    }
}

/// A hash proof that is made holds the digest of its message, whose length is one that can be
/// proved; and one that passes was accepted for its message and digest.
pub proof fn lemma_hash_proof<
    F: Fn(&Keccak256SpongeAir, &RowMajorMatrix, &[Val]) -> Result<Vec<u8>, String>,
    V: Fn(&Keccak256SpongeAir, &[Val], &[u8]) -> bool,
>(prover: F, verifier: V, msg: Seq<u8>, p: Keccak256StarkProof)
    ensures
        sponge_prove_outcome(prover, msg, Ok(p)) ==> p.digest@ == keccak256_spec(msg) && p.msg_len
            == msg.len() && (msg.len() == 12 || msg.len() == 24 || msg.len() == 64 || msg.len()
            == 264),
        sponge_verify_outcome(verifier, msg, p, true) ==> p.msg_len == msg.len() && exists|
            a: &Keccak256SpongeAir,
            v: &[Val],
            b: &[u8],
        |
            {
                &&& #[trigger] call_ensures(verifier, (a, v, b), true)
                &&& a.msg_len == msg.len()
                &&& b@ == p.stark@
                &&& v@.len() == msg.len() + 32
                &&& forall|i: int| 0 <= i < msg.len() ==> (#[trigger] v@[i])@ == msg[i]
                &&& forall|i: int|
                    msg.len() <= i < msg.len() + 32 ==> (#[trigger] v@[i])@ == p.digest@[i
                        - msg.len()]
            },
{
    if sponge_verify_outcome(verifier, msg, p, true) {
        let (a, v, b) = choose|a: &Keccak256SpongeAir, v: &[Val], b: &[u8]|
            {
                &&& #[trigger] call_ensures(verifier, (a, v, b), true)
                &&& a.msg_len == msg.len()
                &&& vals(v@) == sponge_publics(msg, p.digest@)
                &&& b@ == p.stark@
            };
        let pv = sponge_publics(msg, p.digest@);
        assert(pv.len() == msg.len() + 32);
        assert(v@.len() == vals(v@).len());
        assert forall|i: int| 0 <= i < v@.len() implies (#[trigger] v@[i])@ == pv[i] by {
            assert(vals(v@)[i] == v@[i]@);
        }
    }
}

} // verus!
