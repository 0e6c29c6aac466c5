//! The Fiat-Shamir transcript.
//!
//! A transcript is known by the list of what was absorbed into it and drawn from it, in order.
//! What is drawn is a function of that list.
use p3_challenger::{
    CanObserve, CanSampleBits, FieldChallenger, GrindingChallenger, HashChallenger,
    SerializingChallenger32,
};
use p3_field::extension::BinomialExtensionField;
use p3_field::{BasedVectorSpace, PrimeField32};
use p3_keccak::Keccak256Hash;
use p3_mersenne_31::Mersenne31;
use vstd::prelude::*;

use crate::bits::exp2;
use crate::ext::{Challenge, Ext};
use crate::field::Val;

verus! {

/// One entry of a transcript: what kind of step it was, then its data.
pub open spec fn absorbed_base(v: int) -> Seq<int> {
    seq![0, v]
}

/// A digest was absorbed.
pub open spec fn absorbed_digest(d: Seq<u8>) -> Seq<int> {
    seq![1int] + Seq::new(d.len(), |i: int| d[i] as int)
}

/// A challenge was drawn.
pub open spec fn drew_challenge() -> Seq<int> {
    seq![2]
}

/// A number of `bits` bits was drawn.
pub open spec fn drew_bits(bits: nat) -> Seq<int> {
    seq![3, bits as int]
}

/// The transcript after absorbing the roots of a commitment.
pub open spec fn with_roots(log: Seq<Seq<int>>, roots: Seq<[u8; 32]>) -> Seq<Seq<int>> {
    log + Seq::new(roots.len(), |i: int| absorbed_digest(roots[i]@))
}

/// The transcript after absorbing a challenge-field element, coefficient by coefficient.
pub open spec fn with_element(log: Seq<Seq<int>>, e: Ext) -> Seq<Seq<int>> {
    log.push(absorbed_base(e.c0)).push(absorbed_base(e.c1)).push(absorbed_base(e.c2))
}

/// The transcript after absorbing `n` elements.
pub open spec fn with_elements(log: Seq<Seq<int>>, s: Seq<Challenge>, n: nat) -> Seq<Seq<int>>
    decreases n,
{
    if n == 0 {
        log
    } else {
        with_element(with_elements(log, s, (n - 1) as nat), s[n - 1]@)
    }
}

/// The challenge drawn after the listed steps.
pub uninterp spec fn drawn_challenge(log: Seq<Seq<int>>) -> (int, int, int);

/// The number of `bits` bits drawn after the listed steps.
pub uninterp spec fn drawn_bits(log: Seq<Seq<int>>, bits: nat) -> int;

/// The challenge drawn after the listed steps, as an element.
pub open spec fn challenge_after(log: Seq<Seq<int>>) -> Ext {
    let c = drawn_challenge(log);
    Ext { c0: c.0, c1: c.1, c2: c.2 }
}

/// Whether a proof-of-work witness of `bits` bits is valid after the listed steps.
pub open spec fn work_valid(log: Seq<Seq<int>>, bits: nat, witness: int) -> bool {
    bits == 0 || drawn_bits(log.push(absorbed_base(witness)), bits) == 0
}

/// The transcript after a proof-of-work check.
pub open spec fn with_work(log: Seq<Seq<int>>, bits: nat, witness: int) -> Seq<Seq<int>> {
    if bits == 0 {
        log
    } else {
        log.push(absorbed_base(witness)).push(drew_bits(bits))
    }
}

/// `p3_challenger::SerializingChallenger32` over a `p3_challenger::HashChallenger` with
/// Keccak-256.
#[verifier::external_body]
pub struct Transcript {
    inner: SerializingChallenger32<Mersenne31, HashChallenger<u8, Keccak256Hash, 32>>,
}

/// What was absorbed and drawn so far.
pub uninterp spec fn transcript_log(t: Transcript) -> Seq<Seq<int>>;

/// `SerializingChallenger32::from_hasher` with no initial bytes: a transcript with no steps.
#[verifier::external_body]
fn challenger_new() -> (t: Transcript)
    ensures
        transcript_log(t) == Seq::<Seq<int>>::empty(),
{
    Transcript { inner: SerializingChallenger32::from_hasher(Vec::new(), Keccak256Hash {}) }
}

/// `CanObserve::observe` on a field element.
#[verifier::external_body]
fn challenger_observe(t: &mut Transcript, v: Val)
    ensures
        transcript_log(*final(t)) == transcript_log(*old(t)).push(absorbed_base(v@)),
{
    t.inner.observe(Mersenne31::new(v.as_canonical_u32()));
}

/// `CanObserve::observe` on a `p3_symmetric::Hash` of 32 bytes: the digest is absorbed. A
/// `p3_symmetric::MerkleCap` is absorbed digest by digest in the same way.
#[verifier::external_body]
fn challenger_observe_digest(t: &mut Transcript, d: [u8; 32])
    ensures
        transcript_log(*final(t)) == transcript_log(*old(t)).push(absorbed_digest(d@)),
{
    t.inner.observe(p3_symmetric::Hash::<Mersenne31, u8, 32>::from(d));
}

/// `FieldChallenger::observe_algebra_element` on a challenge-field element: its coefficients
/// are absorbed in order.
#[verifier::external_body]
fn challenger_observe_element(t: &mut Transcript, e: Challenge)
    ensures
        transcript_log(*final(t)) == with_element(transcript_log(*old(t)), e@),
{
    let c = [e.c0, e.c1, e.c2].map(|v| Mersenne31::new(v.as_canonical_u32()));
    t.inner.observe_algebra_element(BinomialExtensionField::<Mersenne31, 3>::new(c));
}

/// `FieldChallenger::sample_algebra_element`: a challenge that depends on the earlier steps
/// only.
#[verifier::external_body]
fn challenger_sample(t: &mut Transcript) -> (r: Challenge)
    ensures
        (r.c0@, r.c1@, r.c2@) == drawn_challenge(transcript_log(*old(t))),
        transcript_log(*final(t)) == transcript_log(*old(t)).push(drew_challenge()),
{
    let e: BinomialExtensionField<Mersenne31, 3> = t.inner.sample_algebra_element();
    let s: &[Mersenne31] = e.as_basis_coefficients_slice();
    Challenge::from_words(
        s[0].as_canonical_u32(),
        s[1].as_canonical_u32(),
        s[2].as_canonical_u32(),
    )
}

/// `CanSampleBits::sample_bits`: a number of the given width that depends on the earlier steps
/// and the width only.
#[verifier::external_body]
fn challenger_sample_bits(t: &mut Transcript, bits: usize) -> (r: usize)
    requires
        bits <= 30,
    ensures
        r == drawn_bits(transcript_log(*old(t)), bits as nat),
        r < exp2(bits as nat),
        transcript_log(*final(t)) == transcript_log(*old(t)).push(drew_bits(bits as nat)),
{
    t.inner.sample_bits(bits)
}

/// `GrindingChallenger::check_witness`: with no bits asked it accepts without a step;
/// otherwise the witness is absorbed and the bits drawn next must all be zero.
#[verifier::external_body]
fn challenger_check_witness(t: &mut Transcript, bits: usize, witness: Val) -> (r: bool)
    requires
        bits <= 30,
    ensures
        r == work_valid(transcript_log(*old(t)), bits as nat, witness@),
        transcript_log(*final(t)) == with_work(transcript_log(*old(t)), bits as nat, witness@),
{
    t.inner.check_witness(bits, Mersenne31::new(witness.as_canonical_u32()))
}

impl Transcript {
    /// A transcript with no steps.
    pub fn new() -> (t: Transcript)
        ensures
            transcript_log(t) == Seq::<Seq<int>>::empty(),
    {
        challenger_new()
    }

    /// Absorbs a field element.
    pub fn observe(&mut self, v: Val)
        ensures
            transcript_log(*final(self)) == transcript_log(*old(self)).push(absorbed_base(v@)),
    {
        challenger_observe(self, v)
    }

    /// Absorbs the roots of a commitment.
    pub fn observe_roots(&mut self, roots: &[[u8; 32]])
        ensures
            transcript_log(*final(self)) == with_roots(transcript_log(*old(self)), roots@),
    {
        let ghost start = transcript_log(*self);
        let mut i: usize = 0;
        proof {
            assert(transcript_log(*self) =~= with_roots(start, roots@.take(0)));
        }
        while i < roots.len()
            invariant
                i <= roots.len(),
                transcript_log(*self) == with_roots(start, roots@.take(i as int)),
            decreases roots.len() - i,
        {
            challenger_observe_digest(self, roots[i]);
            i += 1;
            proof {
                assert(transcript_log(*self) =~= with_roots(start, roots@.take(i as int)));
            }
        }
        proof {
            assert(roots@.take(roots@.len() as int) =~= roots@);
        }
    }

    /// Absorbs a challenge-field element.
    pub fn observe_element(&mut self, e: Challenge)
        ensures
            transcript_log(*final(self)) == with_element(transcript_log(*old(self)), e@),
    {
        challenger_observe_element(self, e)
    }

    /// Absorbs challenge-field elements in order.
    pub fn observe_elements(&mut self, s: &[Challenge])
        ensures
            transcript_log(*final(self)) == with_elements(
                transcript_log(*old(self)),
                s@,
                s@.len(),
            ),
    {
        let ghost start = transcript_log(*self);
        let mut i: usize = 0;
        while i < s.len()
            invariant
                i <= s.len(),
                transcript_log(*self) == with_elements(start, s@, i as nat),
            decreases s.len() - i,
        {
            self.observe_element(s[i]);
            i += 1;
        }
    }

    /// Draws a challenge.
    pub fn sample(&mut self) -> (r: Challenge)
        ensures
            r@ == challenge_after(transcript_log(*old(self))),
            transcript_log(*final(self)) == transcript_log(*old(self)).push(drew_challenge()),
    {
        challenger_sample(self)
    }

    /// Draws a number of `bits` bits.
    pub fn sample_bits(&mut self, bits: usize) -> (r: usize)
        requires
            bits <= 30,
        ensures
            r == drawn_bits(transcript_log(*old(self)), bits as nat),
            r < exp2(bits as nat),
            transcript_log(*final(self)) == transcript_log(*old(self)).push(
                drew_bits(bits as nat),
            ),
    {
        challenger_sample_bits(self, bits)
    }

    /// Checks a proof-of-work witness.
    pub fn check_witness(&mut self, bits: usize, witness: Val) -> (r: bool)
        requires
            bits <= 30,
        ensures
            r == work_valid(transcript_log(*old(self)), bits as nat, witness@),
            transcript_log(*final(self)) == with_work(
                transcript_log(*old(self)),
                bits as nat,
                witness@,
            ),
    {
        challenger_check_witness(self, bits, witness)
    }
}

} // verus!
