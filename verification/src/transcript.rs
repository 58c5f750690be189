//! The Fiat-Shamir transcript.
//!
//! A transcript is a deterministic sponge over `Z_q`: absorbing mixes ring
//! coordinates into the state, squeezing derives a fresh challenge from the
//! state alone.  Challenges therefore depend on nothing but the
//! configuration and the sequence of absorbed values, which is the whole
//! contract of the transcript layer.
//!
//! Two challenge flavours coexist and must not be collapsed: full-field
//! challenges (scalars of `Z_q`, embedded diagonally into NTT form where a
//! ring element is needed) and short challenges (coefficient-form elements
//! with 0/1 coefficients drawn via the ring's challenge set).

use vstd::prelude::*;
use vstd::arithmetic::power2::{pow2, lemma2_to64};
use crate::zq::{zq_add, zq_mul, add_mod, mul_mod};
use crate::ring::{RqNtt, RqCoeff, seq_wf};

verus! {

/// Multiplier mixed into the sponge state at every step.
pub const SPONGE_MIX: u64 = 0x9E3779B97F4A7C15;

/// Domain-separation offsets for absorbing and squeezing.
pub const ABSORB_TWEAK: u64 = 1;
pub const SQUEEZE_TWEAK: u64 = 7;

/// One sponge step: multiply the state by the mixer and add an offset.
pub open spec fn sponge_step_s(q: u64, st: u64, x: u64, tweak: u64) -> u64 {
    zq_add(q, zq_add(q, zq_mul(q, st, ((SPONGE_MIX as int % q as int) as u64)), x), tweak)
}

/// State after absorbing one coordinate.
pub open spec fn absorb_coord_s(q: u64, st: u64, x: u64) -> u64 {
    sponge_step_s(q, st, x, ABSORB_TWEAK)
}

/// State after absorbing a sequence of coordinates.
pub open spec fn absorb_coords_s(q: u64, st: u64, coords: Seq<u64>) -> u64
    decreases coords.len(),
{
    if coords.len() == 0 {
        st
    } else {
        absorb_coords_s(q, absorb_coord_s(q, st, coords[0]), coords.subrange(1, coords.len() as int))
    }
}

/// State after absorbing a sequence of ring elements, coordinate-wise.
pub open spec fn absorb_elems_s(q: u64, st: u64, elems: Seq<Seq<u64>>) -> u64
    decreases elems.len(),
{
    if elems.len() == 0 {
        st
    } else {
        absorb_elems_s(q, absorb_coords_s(q, st, elems[0]), elems.subrange(1, elems.len() as int))
    }
}

/// State after squeezing one challenge; the challenge is the new state.
pub open spec fn challenge_next_s(q: u64, st: u64) -> u64 {
    sponge_step_s(q, st, 0, SQUEEZE_TWEAK)
}

/// State after squeezing `n` challenges.
pub open spec fn challenges_state_s(q: u64, st: u64, n: nat) -> u64
    decreases n,
{
    if n == 0 {
        st
    } else {
        challenges_state_s(q, challenge_next_s(q, st), (n - 1) as nat)
    }
}

/// The `n` challenges squeezed in order from state `st`.
pub open spec fn challenges_seq_s(q: u64, st: u64, n: nat) -> Seq<u64>
    decreases n,
{
    if n == 0 {
        Seq::empty()
    } else {
        seq![challenge_next_s(q, st)] + challenges_seq_s(q, challenge_next_s(q, st), (n - 1) as nat)
    }
}

/// Bit `j` (most significant first) of the low byte of `x`.
pub open spec fn byte_bit_s(x: u64, j: nat) -> u64 {
    (((x % 256) as int / pow2((7 - j) as nat) as int) % 2) as u64
}

/// The `dim` low-norm coefficients derived from a squeezed byte stream:
/// byte `k` contributes bit 7 to position `8k`, bit 6 to `8k + 1`, and
/// so on.  This bit ordering is interop-critical.
pub open spec fn short_coeffs_s(q: u64, st: u64, dim: nat) -> Seq<u64> {
    Seq::new(dim, |i: int| byte_bit_s(
        challenges_seq_s(q, st, (dim + 7) as nat / 8)[i / 8], (i % 8) as nat))
}

/// State after squeezing one short challenge of `dim` coefficients.
pub open spec fn short_state_s(q: u64, st: u64, dim: nat) -> u64 {
    challenges_state_s(q, st, (dim + 7) as nat / 8)
}

/// Fiat-Shamir transcript over rings with full-field challenges.
pub trait Transcript: Sized {
    /// The transcript is internally consistent.
    spec fn wf_spec(&self) -> bool;

    /// The modulus challenges are drawn in.
    spec fn q_spec(&self) -> u64;

    /// NTT dimension of the ring elements the transcript absorbs.
    spec fn edim_spec(&self) -> nat;

    /// The sponge state.
    spec fn state_spec(&self) -> u64;

    fn absorb(&mut self, v: &RqNtt)
        requires
            old(self).wf_spec(),
            v.wf(),
            v.q == old(self).q_spec(),
            v.dim() == old(self).edim_spec(),
        ensures
            final(self).wf_spec(),
            final(self).q_spec() == old(self).q_spec(),
            final(self).edim_spec() == old(self).edim_spec(),
            final(self).state_spec() == absorb_coords_s(old(self).q_spec(), old(self).state_spec(), v.c@),
    ;

    fn absorb_field_element(&mut self, v: u64)
        requires
            old(self).wf_spec(),
            v < old(self).q_spec(),
        ensures
            final(self).wf_spec(),
            final(self).q_spec() == old(self).q_spec(),
            final(self).edim_spec() == old(self).edim_spec(),
            final(self).state_spec() == absorb_coords_s(
                old(self).q_spec(), old(self).state_spec(),
                crate::ring::diag_s(old(self).edim_spec(), v)),
    ;

    fn absorb_slice(&mut self, v: &Vec<RqNtt>)
        requires
            old(self).wf_spec(),
            forall|i: int| 0 <= i < v@.len() ==> (#[trigger] v@[i]).wf(),
            forall|i: int| 0 <= i < v@.len() ==> (#[trigger] v@[i]).q == old(self).q_spec(),
            forall|i: int| 0 <= i < v@.len() ==> (#[trigger] v@[i]).dim() == old(self).edim_spec(),
        ensures
            final(self).wf_spec(),
            final(self).q_spec() == old(self).q_spec(),
            final(self).edim_spec() == old(self).edim_spec(),
            final(self).state_spec() == absorb_elems_s(
                old(self).q_spec(), old(self).state_spec(),
                v@.map_values(|e: RqNtt| e.c@)),
    ;

    fn get_challenge(&mut self) -> (r: u64)
        requires
            old(self).wf_spec(),
        ensures
            final(self).wf_spec(),
            final(self).q_spec() == old(self).q_spec(),
            final(self).edim_spec() == old(self).edim_spec(),
            final(self).state_spec() == challenge_next_s(old(self).q_spec(), old(self).state_spec()),
            r == final(self).state_spec(),
            r < final(self).q_spec(),
    ;

    fn get_challenges(&mut self, n: usize) -> (r: Vec<u64>)
        requires
            old(self).wf_spec(),
        ensures
            final(self).wf_spec(),
            final(self).q_spec() == old(self).q_spec(),
            final(self).edim_spec() == old(self).edim_spec(),
            final(self).state_spec() == challenges_state_s(old(self).q_spec(), old(self).state_spec(), n as nat),
            r@ == challenges_seq_s(old(self).q_spec(), old(self).state_spec(), n as nat),
            r@.len() == n,
            seq_wf(final(self).q_spec(), r@),
    ;
}

/// A transcript that can additionally draw short (low-norm,
/// coefficient-representation) challenges from the ring's challenge set.
pub trait TranscriptWithSmallChallenges: Transcript {
    /// Coefficient dimension of the short challenges.
    spec fn cdim_spec(&self) -> nat;

    fn get_small_challenge(&mut self) -> (r: RqCoeff)
        requires
            old(self).wf_spec(),
        ensures
            final(self).wf_spec(),
            final(self).q_spec() == old(self).q_spec(),
            final(self).edim_spec() == old(self).edim_spec(),
            final(self).cdim_spec() == old(self).cdim_spec(),
            final(self).state_spec() == short_state_s(old(self).q_spec(), old(self).state_spec(), old(self).cdim_spec()),
            r.wf(),
            r.q == final(self).q_spec(),
            r.c@ == short_coeffs_s(old(self).q_spec(), old(self).state_spec(), old(self).cdim_spec()),
            r.c@.len() == final(self).cdim_spec(),
            forall|i: int| 0 <= i < r.c@.len() ==> r.c@[i] == 0 || r.c@[i] == 1,
    ;

    fn get_small_challenges(&mut self, n: usize) -> (r: Vec<RqCoeff>)
        requires
            old(self).wf_spec(),
        ensures
            final(self).wf_spec(),
            final(self).q_spec() == old(self).q_spec(),
            final(self).edim_spec() == old(self).edim_spec(),
            final(self).cdim_spec() == old(self).cdim_spec(),
            final(self).state_spec() == small_challenges_state_s(
                old(self).q_spec(), old(self).state_spec(), old(self).cdim_spec(), n as nat),
            r@.map_values(|e: RqCoeff| e.c@) == small_challenges_seq_s(
                old(self).q_spec(), old(self).state_spec(), old(self).cdim_spec(), n as nat),
            r@.len() == n,
            forall|i: int| 0 <= i < n ==> (#[trigger] r@[i]).wf(),
            forall|i: int| 0 <= i < n ==> (#[trigger] r@[i]).q == final(self).q_spec(),
            forall|i: int| 0 <= i < n ==> (#[trigger] r@[i]).c@.len() == final(self).cdim_spec(),
            forall|i: int| 0 <= i < n ==> forall|j: int| 0 <= j < (#[trigger] r@[i]).c@.len()
                ==> r@[i].c@[j] == 0 || r@[i].c@[j] == 1,
    ;
}

/// State after squeezing `n` short challenges in a row.
pub open spec fn small_challenges_state_s(q: u64, st: u64, dim: nat, n: nat) -> u64
    decreases n,
{
    if n == 0 {
        st
    } else {
        small_challenges_state_s(q, short_state_s(q, st, dim), dim, (n - 1) as nat)
    }
}

/// The coefficient vectors of `n` short challenges squeezed in a row.
pub open spec fn small_challenges_seq_s(q: u64, st: u64, dim: nat, n: nat) -> Seq<Seq<u64>>
    decreases n,
{
    if n == 0 {
        Seq::empty()
    } else {
        seq![short_coeffs_s(q, st, dim)]
            + small_challenges_seq_s(q, short_state_s(q, st, dim), dim, (n - 1) as nat)
    }
}

/// The concrete sponge transcript of this crate.
pub struct FsTranscript {
    pub q: u64,
    /// NTT dimension of absorbed ring elements.
    pub edim: usize,
    /// Coefficient dimension of short challenges.
    pub cdim: usize,
    /// `SPONGE_MIX` reduced modulo `q`.
    pub mix: u64,
    pub state: u64,
}

impl FsTranscript {
    /// A fresh transcript for the given ring shape, seeded with `seed`.
    pub fn new(q: u64, edim: usize, cdim: usize, seed: u64) -> (r: FsTranscript)
        requires
            q >= 2,
        ensures
            r.wf_spec(),
            r.q_spec() == q,
            r.edim_spec() == edim as nat,
            r.cdim_spec() == cdim as nat,
            r.state_spec() == seed as int % q as int,
    {
        FsTranscript {
            q,
            edim,
            cdim,
            mix: crate::zq::reduce_mod(q, SPONGE_MIX),
            state: crate::zq::reduce_mod(q, seed),
        }
    }

    fn step(&mut self, x: u64, tweak: u64) -> (r: u64)
        requires
            old(self).wf_spec(),
            x < old(self).q,
        ensures
            final(self).wf_spec(),
            final(self).q == old(self).q,
            final(self).edim == old(self).edim,
            final(self).cdim == old(self).cdim,
            final(self).state == sponge_step_s(old(self).q, old(self).state, x, tweak),
            r == final(self).state,
    {
        let t = mul_mod(self.q, self.state, self.mix);
        let u = add_mod(self.q, t, x);
        let tw = crate::zq::reduce_mod(self.q, tweak);
        self.state = add_mod(self.q, u, tw);
        proof {
            vstd::arithmetic::div_mod::lemma_mod_bound(tweak as int, self.q as int);
            vstd::arithmetic::div_mod::lemma_add_mod_noop(u as int, tweak as int, self.q as int);
            vstd::arithmetic::div_mod::lemma_small_mod(u as nat, self.q as nat);
        }
        self.state
    }

    pub(crate) fn absorb_inner(&mut self, v: &RqNtt)
        requires
            old(self).wf_spec(),
            v.wf(),
            v.q == old(self).q,
        ensures
            final(self).wf_spec(),
            final(self).q == old(self).q,
            final(self).edim == old(self).edim,
            final(self).cdim == old(self).cdim,
            final(self).state == absorb_coords_s(old(self).q, old(self).state, v.c@),
    {
        let ghost st0 = self.state;
        let mut i: usize = 0;
        while i < v.c.len()
            invariant
                self.wf_spec(),
                self.q == old(self).q,
                self.edim == old(self).edim,
                self.cdim == old(self).cdim,
                v.wf(),
                v.q == self.q,
                i <= v.c@.len(),
                self.state == absorb_coords_s(self.q, st0, v.c@.subrange(0, i as int)),
            decreases v.c@.len() - i,
        {
            proof {
                lemma_absorb_coords_snoc(self.q, st0, v.c@, i as int);
            }
            let _ = self.step(v.c[i], ABSORB_TWEAK);
            i = i + 1;
        }
        proof {
            assert(v.c@.subrange(0, v.c@.len() as int) =~= v.c@);
        }
    }

    pub(crate) fn get_challenges_inner(&mut self, n: usize) -> (r: Vec<u64>)
        requires
            old(self).wf_spec(),
        ensures
            final(self).wf_spec(),
            final(self).q == old(self).q,
            final(self).edim == old(self).edim,
            final(self).cdim == old(self).cdim,
            final(self).state == challenges_state_s(old(self).q, old(self).state, n as nat),
            r@ == challenges_seq_s(old(self).q, old(self).state, n as nat),
            r@.len() == n,
            seq_wf(old(self).q, r@),
    {
        let ghost st0 = self.state;
        let mut out: Vec<u64> = Vec::new();
        let mut i: usize = 0;
        while i < n
            invariant
                self.wf_spec(),
                self.q == old(self).q,
                self.edim == old(self).edim,
                self.cdim == old(self).cdim,
                i <= n,
                out@.len() == i,
                self.state == challenges_state_s(self.q, st0, i as nat),
                out@ == challenges_seq_s(self.q, st0, i as nat),
                seq_wf(self.q, out@),
            decreases n - i,
        {
            proof {
                lemma_challenges_snoc(self.q, st0, i as nat);
            }
            let c = self.step(0, SQUEEZE_TWEAK);
            out.push(c);
            i = i + 1;
        }
        out
    }

    pub(crate) fn absorb_scalar_inner(&mut self, v: u64)
        requires
            old(self).wf_spec(),
            v < old(self).q,
        ensures
            final(self).wf_spec(),
            final(self).q == old(self).q,
            final(self).edim == old(self).edim,
            final(self).cdim == old(self).cdim,
            final(self).state == absorb_coords_s(old(self).q, old(self).state,
                crate::ring::diag_s(old(self).edim as nat, v)),
    {
        let e = RqNtt::from_u128(self.q, self.edim, v as u128);
        proof {
            vstd::arithmetic::div_mod::lemma_small_mod(v as nat, self.q as nat);
        }
        self.absorb_inner(&e);
    }

    pub(crate) fn absorb_elems_inner(&mut self, v: &Vec<RqNtt>)
        requires
            old(self).wf_spec(),
            forall|i: int| 0 <= i < v@.len() ==> (#[trigger] v@[i]).wf(),
            forall|i: int| 0 <= i < v@.len() ==> (#[trigger] v@[i]).q == old(self).q,
        ensures
            final(self).wf_spec(),
            final(self).q == old(self).q,
            final(self).edim == old(self).edim,
            final(self).cdim == old(self).cdim,
            final(self).state == absorb_elems_s(old(self).q, old(self).state,
                v@.map_values(|e: RqNtt| e.c@)),
    {
        let ghost st0 = self.state;
        let mut i: usize = 0;
        while i < v.len()
            invariant
                self.wf_spec(),
                self.q == old(self).q,
                self.edim == old(self).edim,
                self.cdim == old(self).cdim,
                forall|k: int| 0 <= k < v@.len() ==> (#[trigger] v@[k]).wf(),
                forall|k: int| 0 <= k < v@.len() ==> (#[trigger] v@[k]).q == self.q,
                i <= v@.len(),
                self.state == absorb_elems_s(self.q, st0,
                    v@.map_values(|e: RqNtt| e.c@).subrange(0, i as int)),
            decreases v@.len() - i,
        {
            proof {
                lemma_absorb_elems_snoc(self.q, st0, v@.map_values(|e: RqNtt| e.c@), i as int);
            }
            self.absorb_inner(&v[i]);
            i = i + 1;
        }
        proof {
            let es = v@.map_values(|e: RqNtt| e.c@);
            assert(es.subrange(0, es.len() as int) =~= es);
        }
    }

    pub(crate) fn squeeze_inner(&mut self) -> (r: u64)
        requires
            old(self).wf_spec(),
        ensures
            final(self).wf_spec(),
            final(self).q == old(self).q,
            final(self).edim == old(self).edim,
            final(self).cdim == old(self).cdim,
            final(self).state == challenge_next_s(old(self).q, old(self).state),
            r == final(self).state,
            r < final(self).q,
    {
        self.step(0, SQUEEZE_TWEAK)
    }
}

impl Transcript for FsTranscript {
    open spec fn wf_spec(&self) -> bool {
        &&& self.q >= 2
        &&& self.state < self.q
        &&& self.mix == SPONGE_MIX as int % self.q as int
    }

    open spec fn q_spec(&self) -> u64 {
        self.q
    }

    open spec fn edim_spec(&self) -> nat {
        self.edim as nat
    }

    open spec fn state_spec(&self) -> u64 {
        self.state
    }

    fn absorb(&mut self, v: &RqNtt) {
        self.absorb_inner(v);
    }

    fn absorb_field_element(&mut self, v: u64) {
        let e = RqNtt::from_u128(self.q, self.edim, v as u128);
        proof {
            vstd::arithmetic::div_mod::lemma_small_mod(v as nat, self.q as nat);
        }
        self.absorb_inner(&e);
    }

    fn absorb_slice(&mut self, v: &Vec<RqNtt>) {
        let ghost st0 = self.state;
        let mut i: usize = 0;
        while i < v.len()
            invariant
                self.wf_spec(),
                self.q == old(self).q,
                self.edim == old(self).edim,
                self.cdim == old(self).cdim,
                forall|k: int| 0 <= k < v@.len() ==> (#[trigger] v@[k]).wf(),
                forall|k: int| 0 <= k < v@.len() ==> (#[trigger] v@[k]).q == self.q,
                i <= v@.len(),
                self.state == absorb_elems_s(self.q, st0,
                    v@.map_values(|e: RqNtt| e.c@).subrange(0, i as int)),
            decreases v@.len() - i,
        {
            proof {
                lemma_absorb_elems_snoc(self.q, st0, v@.map_values(|e: RqNtt| e.c@), i as int);
            }
            self.absorb_inner(&v[i]);
            i = i + 1;
        }
        proof {
            let es = v@.map_values(|e: RqNtt| e.c@);
            assert(es.subrange(0, es.len() as int) =~= es);
        }
    }

    fn get_challenge(&mut self) -> (r: u64) {
        self.step(0, SQUEEZE_TWEAK)
    }

    fn get_challenges(&mut self, n: usize) -> (r: Vec<u64>) {
        self.get_challenges_inner(n)
    }
}

impl TranscriptWithSmallChallenges for FsTranscript {
    open spec fn cdim_spec(&self) -> nat {
        self.cdim as nat
    }

    fn get_small_challenge(&mut self) -> (r: RqCoeff) {
        let ghost st0 = self.state;
        let nb = self.cdim / 8 + if self.cdim % 8 == 0 { 0 } else { 1 };
        proof {
            assert(nb == (self.cdim + 7) as nat / 8) by {
                vstd::arithmetic::div_mod::lemma_fundamental_div_mod(self.cdim as int, 8);
                vstd::arithmetic::div_mod::lemma_fundamental_div_mod((self.cdim + 7) as int, 8);
            };
        }
        proof {
            assert(nb * 8 >= self.cdim) by {
                vstd::arithmetic::div_mod::lemma_fundamental_div_mod((self.cdim + 7) as int, 8);
                vstd::arithmetic::div_mod::lemma_mod_bound((self.cdim + 7) as int, 8);
            };
        }
        let bytes = self.get_challenges_inner(nb);
        let coeffs = crate::rings::challenge_coefficients_from_bytes(self.q, &bytes, self.cdim);
        proof {
            let dim = self.cdim as nat;
            let target = short_coeffs_s(self.q, st0, dim);
            assert forall|i: int| 0 <= i < dim implies coeffs.c@[i] == target[i] by {
                assert(0 <= i / 8 < nb) by {
                    vstd::arithmetic::div_mod::lemma_multiply_divide_lt(i, 8, nb as int);
                    vstd::arithmetic::div_mod::lemma_div_is_ordered(0, i, 8);
                };
                assert(bytes@[i / 8] == challenges_seq_s(self.q, st0, (dim + 7) / 8)[i / 8]);
            }
            assert(coeffs.c@ =~= target);
        }
        coeffs
    }

    fn get_small_challenges(&mut self, n: usize) -> (r: Vec<RqCoeff>) {
        let ghost st0 = self.state;
        let ghost dim = self.cdim as nat;
        let mut out: Vec<RqCoeff> = Vec::new();
        let mut i: usize = 0;
        while i < n
            invariant
                self.wf_spec(),
                self.q == old(self).q,
                self.edim == old(self).edim,
                self.cdim == old(self).cdim,
                dim == self.cdim as nat,
                i <= n,
                out@.len() == i,
                self.state == small_challenges_state_s(self.q, st0, dim, i as nat),
                out@.map_values(|e: RqCoeff| e.c@) == small_challenges_seq_s(self.q, st0, dim, i as nat),
                forall|k: int| 0 <= k < i ==> (#[trigger] out@[k]).wf(),
                forall|k: int| 0 <= k < i ==> (#[trigger] out@[k]).q == self.q,
                forall|k: int| 0 <= k < i ==> (#[trigger] out@[k]).c@.len() == dim,
                forall|k: int| 0 <= k < i ==> forall|j: int| 0 <= j < (#[trigger] out@[k]).c@.len()
                    ==> out@[k].c@[j] == 0 || out@[k].c@[j] == 1,
            decreases n - i,
        {
            proof {
                lemma_small_challenges_snoc(self.q, st0, dim, i as nat);
            }
            let c = self.get_small_challenge();
            out.push(c);
            proof {
                assert(out@.map_values(|e: RqCoeff| e.c@)
                    =~= small_challenges_seq_s(self.q, st0, dim, (i + 1) as nat));
            }
            i = i + 1;
        }
        out
    }
}

proof fn lemma_absorb_coords_snoc(q: u64, st: u64, coords: Seq<u64>, i: int)
    requires
        0 <= i < coords.len(),
    ensures
        absorb_coords_s(q, st, coords.subrange(0, i + 1))
            == absorb_coord_s(q, absorb_coords_s(q, st, coords.subrange(0, i)), coords[i]),
    decreases i,
{
    if i == 0 {
        assert(coords.subrange(0, 0) =~= Seq::<u64>::empty());
        let s1 = coords.subrange(0, 1);
        assert(s1.subrange(1, 1) =~= Seq::<u64>::empty());
        assert(absorb_coords_s(q, st, s1)
            == absorb_coords_s(q, absorb_coord_s(q, st, s1[0]), s1.subrange(1, 1)));
    } else {
        lemma_absorb_coords_snoc(q, absorb_coord_s(q, st, coords[0]),
            coords.subrange(1, coords.len() as int), i - 1);
        let tail = coords.subrange(1, coords.len() as int);
        assert(coords.subrange(0, i + 1).subrange(1, i + 1) =~= tail.subrange(0, i));
        assert(coords.subrange(0, i).subrange(1, i) =~= tail.subrange(0, i - 1));
        assert(coords.subrange(0, i + 1)[0] == coords[0]);
        assert(coords.subrange(0, i)[0] == coords[0]);
        assert(tail.subrange(0, i)[i - 1] == coords[i]);
    }
}

proof fn lemma_absorb_elems_snoc(q: u64, st: u64, elems: Seq<Seq<u64>>, i: int)
    requires
        0 <= i < elems.len(),
    ensures
        absorb_elems_s(q, st, elems.subrange(0, i + 1))
            == absorb_coords_s(q, absorb_elems_s(q, st, elems.subrange(0, i)), elems[i]),
    decreases i,
{
    if i == 0 {
        assert(elems.subrange(0, 0) =~= Seq::<Seq<u64>>::empty());
        let s1 = elems.subrange(0, 1);
        assert(s1.subrange(1, 1) =~= Seq::<Seq<u64>>::empty());
        assert(absorb_elems_s(q, st, s1)
            == absorb_elems_s(q, absorb_coords_s(q, st, s1[0]), s1.subrange(1, 1)));
    } else {
        lemma_absorb_elems_snoc(q, absorb_coords_s(q, st, elems[0]),
            elems.subrange(1, elems.len() as int), i - 1);
        let tail = elems.subrange(1, elems.len() as int);
        assert(elems.subrange(0, i + 1).subrange(1, i + 1) =~= tail.subrange(0, i));
        assert(elems.subrange(0, i).subrange(1, i) =~= tail.subrange(0, i - 1));
        assert(elems.subrange(0, i + 1)[0] == elems[0]);
        assert(elems.subrange(0, i)[0] == elems[0]);
        assert(tail.subrange(0, i)[i - 1] == elems[i]);
    }
}

proof fn lemma_challenges_snoc(q: u64, st: u64, i: nat)
    ensures
        challenges_state_s(q, st, i + 1)
            == challenge_next_s(q, challenges_state_s(q, st, i)),
        challenges_seq_s(q, st, i + 1)
            == challenges_seq_s(q, st, i).push(challenge_next_s(q, challenges_state_s(q, st, i))),
    decreases i,
{
    let nx = challenge_next_s(q, st);
    if i == 0 {
        assert(challenges_state_s(q, st, 1) == challenges_state_s(q, nx, 0));
        assert(challenges_state_s(q, nx, 0) == nx);
        assert(challenges_state_s(q, st, 0) == st);
        assert(challenges_seq_s(q, nx, 0) =~= Seq::<u64>::empty());
        assert(challenges_seq_s(q, st, 1) == seq![nx] + challenges_seq_s(q, nx, 0));
        assert(challenges_seq_s(q, st, 1) =~= challenges_seq_s(q, st, 0).push(
            challenge_next_s(q, challenges_state_s(q, st, 0))));
    } else {
        lemma_challenges_snoc(q, nx, (i - 1) as nat);
        assert(challenges_state_s(q, st, i + 1) == challenges_state_s(q, nx, i));
        assert(challenges_state_s(q, st, i) == challenges_state_s(q, nx, (i - 1) as nat));
        assert(challenges_seq_s(q, st, i + 1) == seq![nx] + challenges_seq_s(q, nx, i));
        assert(challenges_seq_s(q, st, i) == seq![nx] + challenges_seq_s(q, nx, (i - 1) as nat));
        assert(challenges_seq_s(q, st, i + 1) =~= challenges_seq_s(q, st, i).push(
            challenge_next_s(q, challenges_state_s(q, st, i))));
    }
}

proof fn lemma_small_challenges_snoc(q: u64, st: u64, dim: nat, i: nat)
    ensures
        small_challenges_state_s(q, st, dim, i + 1)
            == short_state_s(q, small_challenges_state_s(q, st, dim, i), dim),
        small_challenges_seq_s(q, st, dim, i + 1)
            == small_challenges_seq_s(q, st, dim, i).push(
                short_coeffs_s(q, small_challenges_state_s(q, st, dim, i), dim)),
    decreases i,
{
    let nx = short_state_s(q, st, dim);
    if i == 0 {
        assert(small_challenges_state_s(q, st, dim, 1) == small_challenges_state_s(q, nx, dim, 0));
        assert(small_challenges_state_s(q, nx, dim, 0) == nx);
        assert(small_challenges_state_s(q, st, dim, 0) == st);
        assert(small_challenges_seq_s(q, nx, dim, 0) =~= Seq::<Seq<u64>>::empty());
        assert(small_challenges_seq_s(q, st, dim, 1)
            == seq![short_coeffs_s(q, st, dim)] + small_challenges_seq_s(q, nx, dim, 0));
        assert(small_challenges_seq_s(q, st, dim, 1) =~= small_challenges_seq_s(q, st, dim, 0).push(
            short_coeffs_s(q, small_challenges_state_s(q, st, dim, 0), dim)));
    } else {
        lemma_small_challenges_snoc(q, nx, dim, (i - 1) as nat);
        assert(small_challenges_state_s(q, st, dim, i + 1) == small_challenges_state_s(q, nx, dim, i));
        assert(small_challenges_state_s(q, st, dim, i) == small_challenges_state_s(q, nx, dim, (i - 1) as nat));
        assert(small_challenges_seq_s(q, st, dim, i + 1)
            == seq![short_coeffs_s(q, st, dim)] + small_challenges_seq_s(q, nx, dim, i));
        assert(small_challenges_seq_s(q, st, dim, i)
            == seq![short_coeffs_s(q, st, dim)] + small_challenges_seq_s(q, nx, dim, (i - 1) as nat));
        assert(small_challenges_seq_s(q, st, dim, i + 1) =~= small_challenges_seq_s(q, st, dim, i).push(
            short_coeffs_s(q, small_challenges_state_s(q, st, dim, i), dim)));
    }
}

/// Transcript determinism: two transcripts with equal configuration and
/// state that absorb the same sequences emit the same challenges.  This
/// holds because every transcript operation is a pure function of the
/// state, which the contracts above pin down exactly.
pub proof fn lemma_transcript_determinism(t1: FsTranscript, t2: FsTranscript, absorbed: Seq<Seq<u64>>, n: nat)
    requires
        t1.q == t2.q,
        t1.state == t2.state,
    ensures
        absorb_elems_s(t1.q, t1.state, absorbed) == absorb_elems_s(t2.q, t2.state, absorbed),
        challenges_seq_s(t1.q, absorb_elems_s(t1.q, t1.state, absorbed), n)
            == challenges_seq_s(t2.q, absorb_elems_s(t2.q, t2.state, absorbed), n),
{
}

} // verus!
