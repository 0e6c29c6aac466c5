//! What the library asks of a proof system, and how it reads the answers.
//!
//! A prover is given a constraint system, a trace and public values and answers with proof
//! bytes or a message; a verifier is given the system, the publics and proof bytes and answers
//! with a verdict.
use vstd::prelude::*;

use crate::field::{vals, Val};
use crate::matrix::RowMajorMatrix;

verus! {

/// `prover` may be asked anything.
pub open spec fn prover_ready<
    A,
    F: Fn(&A, &RowMajorMatrix, &[Val]) -> Result<Vec<u8>, String>,
>(prover: F) -> bool {
    forall|a: &A, m: &RowMajorMatrix, p: &[Val]| call_requires(prover, (a, m, p))
}

/// `reply` is what `prover` answered when given the system `air`, a trace that meets `trace`
/// and the publics `pv`.
pub open spec fn prover_reply<
    A,
    F: Fn(&A, &RowMajorMatrix, &[Val]) -> Result<Vec<u8>, String>,
>(
    prover: F,
    air: A,
    trace: spec_fn(RowMajorMatrix) -> bool,
    pv: Seq<int>,
    reply: Result<Vec<u8>, String>,
) -> bool {
    exists|a: &A, m: &RowMajorMatrix, p: &[Val]|
        {
            &&& #[trigger] call_ensures(prover, (a, m, p), reply)
            &&& *a == air
            &&& trace(*m)
            &&& vals(p@) == pv
        }
}

/// `verifier` may be asked anything.
pub open spec fn verifier_ready<A, V: Fn(&A, &[Val], &[u8]) -> bool>(verifier: V) -> bool {
    forall|a: &A, p: &[Val], b: &[u8]| call_requires(verifier, (a, p, b))
}

/// `r` is what `verifier` answered when given the system `air`, the publics `pv` and the proof
/// bytes `bytes`.
pub open spec fn verifier_verdict<A, V: Fn(&A, &[Val], &[u8]) -> bool>(
    verifier: V,
    air: A,
    pv: Seq<int>,
    bytes: Seq<u8>,
    r: bool,
) -> bool {
    exists|a: &A, p: &[Val], b: &[u8]|
        {
            &&& #[trigger] call_ensures(verifier, (a, p, b), r)
            &&& *a == air
            &&& vals(p@) == pv
            &&& b@ == bytes
        }
}

/// Asks a prover.
pub(crate) fn ask_prover<A, F: Fn(&A, &RowMajorMatrix, &[Val]) -> Result<Vec<u8>, String>>(
    prover: &F,
    air: &A,
    matrix: &RowMajorMatrix,
    pv: &Vec<Val>,
    Ghost(trace): Ghost<spec_fn(RowMajorMatrix) -> bool>,
) -> (reply: Result<Vec<u8>, String>)
    requires
        prover_ready::<A, F>(*prover),
        trace(*matrix),
    ensures
        prover_reply(*prover, *air, trace, vals(pv@), reply),
{
    let publics: &[Val] = pv.as_slice();
    let reply = prover(air, matrix, publics);
    proof {
        assert(call_ensures(*prover, (air, matrix, publics), reply));
    }
    reply
}

/// Asks a verifier.
pub(crate) fn ask_verifier<A, V: Fn(&A, &[Val], &[u8]) -> bool>(
    verifier: &V,
    air: &A,
    pv: &Vec<Val>,
    bytes: &Vec<u8>,
) -> (r: bool)
    requires
        verifier_ready::<A, V>(*verifier),
    ensures
        verifier_verdict(*verifier, *air, vals(pv@), bytes@, r),
{
    let publics: &[Val] = pv.as_slice();
    let proof_bytes: &[u8] = bytes.as_slice();
    let r = verifier(air, publics, proof_bytes);
    proof {
        assert(call_ensures(*verifier, (air, publics, proof_bytes), r));
    }
    r
}

} // verus!
