//! The evaluation domains of a proof.
use p3_circle::CircleDomain;
use p3_commit::PolynomialSpace;
use p3_field::extension::BinomialExtensionField;
use p3_field::{BasedVectorSpace, PrimeField32};
use p3_mersenne_31::Mersenne31;
use vstd::prelude::*;

use crate::bits::{
    exp2, floor_log2, is_pow2, lemma_exp2_log, lemma_exp2_monotone, log2_floor, pow2_usize,
};
use crate::circle::circle_generator;
use crate::deep_ro_native::{projective_denominator, projective_point};
use crate::ext::{eadd, ebase, emul, eone, esub, ezero, Challenge, Ext};
use crate::ext_ring::einv;

verus! {

/// The circle point with projective coordinate `x`, moved by the generator of the subgroup of
/// order `2^log_n`.
pub open spec fn stepped_point(x: Ext, log_n: nat) -> (Ext, Ext) {
    let p = projective_point(x);
    let g = circle_generator(log_n);
    (
        esub(emul(p.0, ebase(g.0)), emul(p.1, ebase(g.1))),
        eadd(emul(p.0, ebase(g.1)), emul(p.1, ebase(g.0))),
    )
}

/// The moved point has a projective coordinate.
pub open spec fn has_next(x: Ext, log_n: nat) -> bool {
    eadd(stepped_point(x, log_n).0, eone()) != ezero()
}

/// The projective coordinate of the moved point.
pub open spec fn next_coordinate(x: Ext, log_n: nat) -> Ext {
    let q = stepped_point(x, log_n);
    emul(einv(eadd(q.0, eone())), q.1)
}

/// `PolynomialSpace::next_point` of `p3_circle::CircleDomain::standard(log_n)`: the projective
/// coordinate of the point moved by the subgroup generator of order `2^log_n`, where the moved
/// point is not the one at infinity. It panics where `x^2 = -1`.
#[verifier::external_body]
fn circle_domain_next_point(log_n: usize, x: Challenge) -> (r: Option<Challenge>)
    requires
        log_n <= 30,
        projective_denominator(x@) != ezero(),
    ensures
        r is Some <==> has_next(x@, log_n as nat),
        r matches Some(t) ==> t@ == next_coordinate(x@, log_n as nat),
{
    let c = [x.c0, x.c1, x.c2].map(|v| Mersenne31::new(v.as_canonical_u32()));
    let e = BinomialExtensionField::<Mersenne31, 3>::new(c);
    CircleDomain::<Mersenne31>::standard(log_n).next_point(e).map(
        |t|
            {
                let s: &[Mersenne31] = t.as_basis_coefficients_slice();
                Challenge::new([0, 1, 2].map(|i: usize| crate::field::Val::from_u32(s[i].as_canonical_u32())))
            },
    )
}

/// The logarithm of the size of each quotient chunk's domain: the parent domain is the standard
/// one of the chunks' total size, or twice that where it would coincide with the trace domain.
pub open spec fn chunk_log_size(degree_bits: nat, chunks: int) -> nat {
    if chunks == 1 {
        degree_bits + 1
    } else {
        degree_bits
    }
}

/// The field has the parent domain of the quotient chunks.
pub open spec fn quotient_domain_fits(degree_bits: nat, chunks: int) -> bool {
    chunk_log_size(degree_bits, chunks) + floor_log2(chunks) <= 30
}

/// Whether the field has the parent domain of `2^log_chunks` quotient chunks.
pub fn has_quotient_domain(degree_bits: usize, log_chunks: usize, chunks: usize) -> (r: bool)
    requires
        is_pow2(chunks as int),
        log_chunks == floor_log2(chunks as int),
    ensures
        r == quotient_domain_fits(degree_bits as nat, chunks as int),
{
    let most: usize = if chunks == 1 {
        29
    } else {
        30
    };
    log_chunks <= most && degree_bits <= most - log_chunks
}

/// `PolynomialSpace::create_disjoint_domain`, `split_domains` and `size` of
/// `p3_circle::CircleDomain`: the sizes of the quotient chunk domains of a trace of
/// `2^degree_bits` rows, where the parent domain is asked to hold every chunk.
#[verifier::external_body]
fn circle_quotient_chunk_sizes(degree_bits: usize, min_size: usize, chunks: usize) -> (r: Vec<
    usize,
>)
    requires
        is_pow2(chunks as int),
        quotient_domain_fits(degree_bits as nat, chunks as int),
        min_size == exp2(degree_bits as nat + floor_log2(chunks as int)),
    ensures
        r@.len() == chunks,
        forall|i: int|
            0 <= i < r@.len() ==> (#[trigger] r@[i]) == exp2(
                chunk_log_size(degree_bits as nat, chunks as int),
            ),
{
    let trace = CircleDomain::<Mersenne31>::standard(degree_bits);
    let parent = trace.create_disjoint_domain(min_size);
    parent.split_domains(chunks).iter().map(|d| d.size()).collect()
}

/// The next evaluation point of the standard domain of size `2^log_n`, if there is one.
pub fn next_point(log_n: usize, x: Challenge) -> (r: Option<Challenge>)
    requires
        log_n <= 30,
        projective_denominator(x@) != ezero(),
    ensures
        r is Some <==> has_next(x@, log_n as nat),
        r matches Some(t) ==> t@ == next_coordinate(x@, log_n as nat),
{
    circle_domain_next_point(log_n, x)
}

/// The logarithms of the quotient chunks' domain sizes.
pub fn quotient_chunk_logs(degree_bits: usize, chunks: usize) -> (r: Vec<usize>)
    requires
        is_pow2(chunks as int),
        quotient_domain_fits(degree_bits as nat, chunks as int),
    ensures
        r@.len() == chunks,
        forall|i: int|
            0 <= i < r@.len() ==> (#[trigger] r@[i]) == chunk_log_size(
                degree_bits as nat,
                chunks as int,
            ),
{
    proof {
        reveal_with_fuel(exp2, 31);
        lemma_exp2_monotone(degree_bits as nat + floor_log2(chunks as int), 30);
    }
    let min_size: usize = pow2_usize(degree_bits + log2_floor(chunks));
    let sizes = circle_quotient_chunk_sizes(degree_bits, min_size, chunks);
    let ghost k: nat = chunk_log_size(degree_bits as nat, chunks as int);
    let mut logs: Vec<usize> = Vec::new();
    let mut i: usize = 0;
    while i < sizes.len()
        invariant
            i <= sizes.len(),
            forall|j: int| 0 <= j < sizes@.len() ==> (#[trigger] sizes@[j]) == exp2(k),
            logs@.len() == i,
            forall|j: int| 0 <= j < i ==> (#[trigger] logs@[j]) == k,
        decreases sizes.len() - i,
    {
        proof {
            lemma_exp2_log(k);
        }
        logs.push(log2_floor(sizes[i]));
        i += 1;
    }
    logs
}

} // verus!
