//! Concrete ring instantiations and their challenge sets.
//!
//! A challenge set maps a byte seed to a low-norm coefficient-form
//! element.  The bit ordering is interop-critical: byte `k` contributes
//! its bit 7 (most significant) to coefficient position `8k`, bit 6 to
//! `8k + 1`, and so on.

use vstd::prelude::*;
use vstd::arithmetic::power2::{pow2, lemma2_to64};
use crate::ring::{RqNtt, RqCoeff, RingParams, crt_s};
use crate::transcript::byte_bit_s;

verus! {

/// The Baby-Bear-like prime `15 * 2^27 + 1`.
pub const PBB_Q: u64 = 2013265921;

/// Number of challenge-set coefficients of the Baby-Bear-like ring:
/// 15 random bytes give one degree-120 polynomial with 0/1 coefficients.
pub const PBB_CHALLENGE_BITS: usize = 120;

/// Expand a byte seed into `dim` low-norm polynomial coefficients: byte
/// `k` bit 7 lands at position `8k + 0`, bit 6 at `8k + 1`, and so on.
/// Each byte is taken from the low 8 bits of the corresponding word.
pub fn challenge_coefficients_from_bytes(q: u64, bytes: &Vec<u64>, dim: usize) -> (r: RqCoeff)
    requires
        q >= 2,
        bytes@.len() * 8 >= dim,
    ensures
        r.wf(),
        r.q == q,
        r.c@.len() == dim,
        forall|i: int| 0 <= i < dim ==> r.c@[i] == byte_bit_s(bytes@[i / 8], (i % 8) as nat),
        forall|i: int| 0 <= i < dim ==> r.c@[i] == 0 || r.c@[i] == 1,
{
    let mut c: Vec<u64> = Vec::new();
    let mut i: usize = 0;
    while i < dim
        invariant
            q >= 2,
            bytes@.len() * 8 >= dim,
            i <= dim,
            c@.len() == i,
            forall|k: int| 0 <= k < i ==> c@[k] == byte_bit_s(bytes@[k / 8], (k % 8) as nat),
            forall|k: int| 0 <= k < i ==> c@[k] == 0 || c@[k] == 1,
        decreases dim - i,
    {
        let byte = bytes[i / 8] % 256;
        let j = i % 8;
        let divisor: u64 = if j == 0 {
            128
        } else if j == 1 {
            64
        } else if j == 2 {
            32
        } else if j == 3 {
            16
        } else if j == 4 {
            8
        } else if j == 5 {
            4
        } else if j == 6 {
            2
        } else {
            1
        };
        proof {
            lemma2_to64();
            assert(divisor == pow2((7 - (i % 8)) as nat));
        }
        let bit = (byte / divisor) % 2;
        proof {
            assert(bit == byte_bit_s(bytes@[i as int / 8], (i % 8) as nat));
            assert(bit == 0 || bit == 1);
        }
        c.push(bit);
        i = i + 1;
    }
    RqCoeff { q, c }
}

/// A concrete cyclotomic ring: its parameter table, its challenge set,
/// and its coefficient-to-NTT conversion.
pub trait CyclotomicRing: Sized {
    spec fn params_spec(&self) -> RingParams;

    spec fn wf_spec(&self) -> bool;

    /// Number of low-norm coefficients a challenge seed expands to.
    spec fn challenge_bits_spec(&self) -> nat;

    /// Map a byte seed to an element of the ring's challenge set.
    fn get_challenge_set(&self, bytes: &Vec<u64>) -> (r: RqCoeff)
        requires
            self.wf_spec(),
            bytes@.len() * 8 >= self.challenge_bits_spec(),
        ensures
            r.wf(),
            r.q == self.params_spec().q,
            r.c@.len() == self.challenge_bits_spec(),
            forall|i: int| 0 <= i < r.c@.len()
                ==> r.c@[i] == byte_bit_s(bytes@[i / 8], (i % 8) as nat),
            forall|i: int| 0 <= i < r.c@.len() ==> r.c@[i] == 0 || r.c@[i] == 1,
    ;

    /// Convert a coefficient-form element to NTT form.
    fn to_ntt(&self, x: &RqCoeff) -> (r: RqNtt)
        requires
            self.wf_spec(),
            x.wf(),
            x.q == self.params_spec().q,
            x.dim() == self.params_spec().d as nat,
        ensures
            r.wf(),
            r.q == self.params_spec().q,
            r.c@ == crt_s(self.params_spec(), x.c@),
    ;
}

/// The Baby-Bear-like ring: modulus `PBB_Q`, challenge polynomials of
/// degree up to `PBB_CHALLENGE_BITS` with 0/1 coefficients.
pub struct PBBCyclotomicRing {
    pub params: RingParams,
}

impl PBBCyclotomicRing {
    /// Wrap a validated parameter table whose modulus is the
    /// Baby-Bear-like prime.
    pub fn new(params: RingParams) -> (r: Option<PBBCyclotomicRing>)
        requires
            params.wf(),
        ensures
            r is Some ==> r->0.wf_spec(),
            r is Some ==> r->0.params_spec() == params,
            r is Some <==> params.q == PBB_Q,
    {
        if params.q == PBB_Q {
            Some(PBBCyclotomicRing { params })
        } else {
            None
        }
    }
}

impl CyclotomicRing for PBBCyclotomicRing {
    open spec fn params_spec(&self) -> RingParams {
        self.params
    }

    open spec fn wf_spec(&self) -> bool {
        self.params.wf() && self.params.q == PBB_Q
    }

    open spec fn challenge_bits_spec(&self) -> nat {
        PBB_CHALLENGE_BITS as nat
    }

    fn get_challenge_set(&self, bytes: &Vec<u64>) -> (r: RqCoeff) {
        challenge_coefficients_from_bytes(self.params.q, bytes, PBB_CHALLENGE_BITS)
    }

    fn to_ntt(&self, x: &RqCoeff) -> (r: RqNtt) {
        self.params.crt(x)
    }
}

} // verus!
