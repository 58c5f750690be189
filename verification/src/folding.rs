//! The folding layer: the prover/verifier pair that combines `2K`
//! linearized CCS instances into one, driven by the transcript and a
//! sumcheck over the composite `g` polynomial.
//!
//! All challenges are drawn in a fixed order: first the tuple
//! `(alpha[2K], beta[log m], zeta[2K], mu[K])`, then (after the sumcheck
//! and the absorption of the `theta` and `eta` evaluations) the `K`
//! short challenges `rho`.  Changing this order breaks interop.

use vstd::prelude::*;
use vstd::arithmetic::power2::pow2;
use crate::ring::{RqNtt, RqCoeff, RingParams, seq_wf, ntt_add_s, ntt_mul_s, diag_s, crt_s};
use crate::mle::{DenseMultilinearExtension, ntt_sub_s, eval_mle_s, eq_eval_s, evaluate_mles, eq_eval, build_eq_table};
use crate::arith::{CCS, CSError, Witness, LCCCS, is_pow2_s, is_power_of_two};
use crate::commitment::{Commitment, elems_wf, elems_view, vec_add_s, vec_scale_s, vec_zero_s, lincomb_s};
use crate::sumcheck::{
    MLSumcheck, Proof, ProverState, SubClaim, SumCheckError, VirtualPolynomial, VPAuxInfo,
};
use crate::transcript::{
    Transcript, TranscriptWithSmallChallenges, FsTranscript,
    challenges_seq_s, challenges_state_s, small_challenges_seq_s, small_challenges_state_s,
};
use crate::zq::{zq_mul, zq_pow, mul_mod};

verus! {

/// Errors of the folding protocol.
#[derive(Debug)]
pub enum FoldingError {
    /// The number of instances is not `2K`, or a recombined vector is empty.
    IncorrectLength,
    /// The sumcheck subprotocol rejected.
    SumCheckError(SumCheckError),
    /// The CCS shape failed its size bound.
    ConstraintSystem(CSError),
}

/// The decomposition parameters of the scheme: `K` halves the `2K` input
/// instances, `B` is the balanced radix, `L` the limb count and
/// `B_SMALL` the small-norm bound.
pub struct DecompositionParams {
    pub k: usize,
    pub b: u64,
    pub l: usize,
    pub b_small: usize,
}

/// The CCS size bound: `m` must be a power of two no smaller than
/// `(n - l - 1) * L`.
pub fn sanity_check(ccs: &CCS, dp: &DecompositionParams) -> (r: Result<(), FoldingError>)
    requires
        ccs.n > ccs.l,
    ensures
        r is Ok <==> (ccs.m >= (ccs.n - ccs.l - 1) * dp.l && is_pow2_s(ccs.m as nat)),
        r is Err ==> (r->Err_0 matches FoldingError::ConstraintSystem(e)
            && e == CSError::InvalidSizeBounds(ccs.m, ccs.n, dp.l)),
{
    let w = ccs.n - ccs.l;
    proof {
        vstd::arithmetic::mul::lemma_mul_upper_bound(
            w as int - 1, u64::MAX as int, dp.l as int, u64::MAX as int);
    }
    let need: u128 = (w as u128 - 1) * dp.l as u128;
    if (ccs.m as u128) < need || !is_power_of_two(ccs.m as u64) {
        return Err(FoldingError::ConstraintSystem(CSError::InvalidSizeBounds(ccs.m, ccs.n, dp.l)));
    }
    Ok(())
}

/// Squeeze the challenge tuple `(alpha[2K], beta[log m], zeta[2K], mu[K])`
/// as four consecutive challenge draws, in that order.
pub fn squeeze_alpha_beta_zeta_mu(transcript: &mut FsTranscript, dp: &DecompositionParams, log_m: usize) -> (r: (Vec<u64>, Vec<u64>, Vec<u64>, Vec<u64>))
    requires
        old(transcript).wf_spec(),
        dp.k * 2 <= usize::MAX,
    ensures
        final(transcript).wf_spec(),
        final(transcript).q == old(transcript).q,
        final(transcript).edim == old(transcript).edim,
        final(transcript).cdim == old(transcript).cdim,
        ({
            let q = old(transcript).q;
            let st0 = old(transcript).state;
            let st1 = challenges_state_s(q, st0, (2 * dp.k) as nat);
            let st2 = challenges_state_s(q, st1, log_m as nat);
            let st3 = challenges_state_s(q, st2, (2 * dp.k) as nat);
            &&& r.0@ == challenges_seq_s(q, st0, (2 * dp.k) as nat)
            &&& r.1@ == challenges_seq_s(q, st1, log_m as nat)
            &&& r.2@ == challenges_seq_s(q, st2, (2 * dp.k) as nat)
            &&& r.3@ == challenges_seq_s(q, st3, dp.k as nat)
            &&& final(transcript).state == challenges_state_s(q, st3, dp.k as nat)
            &&& r.0@.len() == 2 * dp.k && r.1@.len() == log_m
            &&& r.2@.len() == 2 * dp.k && r.3@.len() == dp.k
            &&& seq_wf(q, r.0@) && seq_wf(q, r.1@) && seq_wf(q, r.2@) && seq_wf(q, r.3@)
        }),
{
    let alpha_s = transcript.get_challenges_inner(2 * dp.k);
    let beta_s = transcript.get_challenges_inner(log_m);
    let zeta_s = transcript.get_challenges_inner(2 * dp.k);
    let mu_s = transcript.get_challenges_inner(dp.k);
    (alpha_s, beta_s, zeta_s, mu_s)
}

/// Squeeze the `K` short folding challenges.
pub fn get_rhos(transcript: &mut FsTranscript, dp: &DecompositionParams) -> (r: Vec<RqCoeff>)
    requires
        old(transcript).wf_spec(),
    ensures
        final(transcript).wf_spec(),
        final(transcript).q == old(transcript).q,
        final(transcript).edim == old(transcript).edim,
        final(transcript).cdim == old(transcript).cdim,
        final(transcript).state == small_challenges_state_s(
            old(transcript).q, old(transcript).state, old(transcript).cdim as nat, dp.k as nat),
        r@.map_values(|e: RqCoeff| e.c@) == small_challenges_seq_s(
            old(transcript).q, old(transcript).state, old(transcript).cdim as nat, dp.k as nat),
        r@.len() == dp.k,
        forall|i: int| 0 <= i < r@.len() ==> (#[trigger] r@[i]).wf(),
        forall|i: int| 0 <= i < r@.len() ==> (#[trigger] r@[i]).q == old(transcript).q,
        forall|i: int| 0 <= i < r@.len() ==> (#[trigger] r@[i]).c@.len() == old(transcript).cdim,
{
    transcript.get_small_challenges(dp.k)
}

/// `sum_{j >= 1} x^j * vs[j - 1]`: the power-weighted sum of a vector,
/// with powers of the scalar `x` starting at `x^1`.
pub open spec fn powsum_s(q: u64, edim: nat, x: u64, vs: Seq<Seq<u64>>, n: int) -> Seq<u64>
    decreases n,
{
    if n <= 0 {
        diag_s(edim, 0u64)
    } else {
        ntt_add_s(q,
            powsum_s(q, edim, x, vs, n - 1),
            ntt_mul_s(q, diag_s(edim, zq_pow(q, x, n as nat)), vs[n - 1]))
    }
}

/// Compute `sum_j x^j * vs[j-1]` for a scalar challenge `x`.
pub fn powsum(q: u64, edim: usize, x: u64, vs: &Vec<RqNtt>) -> (r: RqNtt)
    requires
        q >= 2,
        x < q,
        elems_wf(vs@, q, edim as nat),
    ensures
        r.wf(),
        r.q == q,
        r.dim() == edim as nat,
        r.c@ == powsum_s(q, edim as nat, x, elems_view(vs@), vs@.len() as int),
{
    let mut acc = RqNtt::zero(q, edim);
    let mut pw: u64 = 1 % q;
    proof {
        vstd::arithmetic::div_mod::lemma_small_mod(1nat, q as nat);
    }
    let mut j: usize = 0;
    while j < vs.len()
        invariant
            q >= 2,
            x < q,
            elems_wf(vs@, q, edim as nat),
            j <= vs@.len(),
            acc.wf(),
            acc.q == q,
            acc.dim() == edim as nat,
            pw == zq_pow(q, x, j as nat),
            pw < q,
            acc.c@ == powsum_s(q, edim as nat, x, elems_view(vs@), j as int),
        decreases vs@.len() - j,
    {
        pw = mul_mod(q, x, pw);
        proof {
            assert(pw == zq_pow(q, x, (j + 1) as nat));
        }
        let pe = RqNtt::from_u128(q, edim, pw as u128);
        proof {
            vstd::arithmetic::div_mod::lemma_small_mod(pw as nat, q as nat);
        }
        let term = pe.mul(&vs[j]);
        acc = acc.add(&term);
        proof {
            assert(elems_view(vs@)[j as int] == vs@[j as int].c@);
        }
        j = j + 1;
    }
    acc
}

/// The two sumcheck claims recomputed from the instances alone:
/// `claim_g1 = sum_i sum_j alpha_i^j v_i[j-1]` and
/// `claim_g3 = sum_i sum_j zeta_i^j u_i[j-1]`.
pub open spec fn claim_sum_s(q: u64, edim: nat, xs: Seq<u64>, vss: Seq<Seq<Seq<u64>>>, n: int) -> Seq<u64>
    decreases n,
{
    if n <= 0 {
        diag_s(edim, 0u64)
    } else {
        ntt_add_s(q,
            claim_sum_s(q, edim, xs, vss, n - 1),
            powsum_s(q, edim, xs[n - 1], vss[n - 1], vss[n - 1].len() as int))
    }
}

/// Recompute `(claim_g1, claim_g3)` from the instances.
pub fn calculate_claims(q: u64, edim: usize, alpha_s: &Vec<u64>, zeta_s: &Vec<u64>, cm_i_s: &Vec<LCCCS>) -> (r: (RqNtt, RqNtt))
    requires
        q >= 2,
        seq_wf(q, alpha_s@),
        seq_wf(q, zeta_s@),
        alpha_s@.len() >= cm_i_s@.len(),
        zeta_s@.len() >= cm_i_s@.len(),
        forall|i: int| 0 <= i < cm_i_s@.len() ==> (#[trigger] cm_i_s@[i]).wf(q, edim as nat),
    ensures
        r.0.wf() && r.0.q == q && r.0.dim() == edim as nat,
        r.1.wf() && r.1.q == q && r.1.dim() == edim as nat,
        r.0.c@ == claim_sum_s(q, edim as nat, alpha_s@,
            cm_i_s@.map_values(|c: LCCCS| elems_view(c.v@)), cm_i_s@.len() as int),
        r.1.c@ == claim_sum_s(q, edim as nat, zeta_s@,
            cm_i_s@.map_values(|c: LCCCS| elems_view(c.u@)), cm_i_s@.len() as int),
{
    let ghost vss = cm_i_s@.map_values(|c: LCCCS| elems_view(c.v@));
    let ghost uss = cm_i_s@.map_values(|c: LCCCS| elems_view(c.u@));
    let mut g1 = RqNtt::zero(q, edim);
    let mut g3 = RqNtt::zero(q, edim);
    let mut i: usize = 0;
    while i < cm_i_s.len()
        invariant
            q >= 2,
            seq_wf(q, alpha_s@),
            seq_wf(q, zeta_s@),
            alpha_s@.len() >= cm_i_s@.len(),
            zeta_s@.len() >= cm_i_s@.len(),
            forall|k: int| 0 <= k < cm_i_s@.len() ==> (#[trigger] cm_i_s@[k]).wf(q, edim as nat),
            vss == cm_i_s@.map_values(|c: LCCCS| elems_view(c.v@)),
            uss == cm_i_s@.map_values(|c: LCCCS| elems_view(c.u@)),
            i <= cm_i_s@.len(),
            g1.wf() && g1.q == q && g1.dim() == edim as nat,
            g3.wf() && g3.q == q && g3.dim() == edim as nat,
            g1.c@ == claim_sum_s(q, edim as nat, alpha_s@, vss, i as int),
            g3.c@ == claim_sum_s(q, edim as nat, zeta_s@, uss, i as int),
        decreases cm_i_s@.len() - i,
    {
        let t1 = powsum(q, edim, alpha_s[i], &cm_i_s[i].v);
        g1 = g1.add(&t1);
        let t3 = powsum(q, edim, zeta_s[i], &cm_i_s[i].u);
        g3 = g3.add(&t3);
        proof {
            assert(vss[i as int] == elems_view(cm_i_s@[i as int].v@));
            assert(uss[i as int] == elems_view(cm_i_s@[i as int].u@));
        }
        i = i + 1;
    }
    (g1, g3)
}

/// Horner combination of one instance's `Mz` extensions:
/// `sum_j zeta^{j+1} * Mz[j]`, folded from the last index down.
pub open spec fn mz_horner_s(q: u64, edim: nat, m: nat, tabs: Seq<Seq<Seq<u64>>>, zeta: u64) -> Seq<Seq<u64>>
    decreases tabs.len(),
{
    if tabs.len() == 0 {
        vec_zero_s(edim, m)
    } else {
        vec_scale_s(q, diag_s(edim, zeta),
            vec_add_s(q, tabs[0], mz_horner_s(q, edim, m, tabs.subrange(1, tabs.len() as int), zeta)))
    }
}

/// Sum of the Horner combinations of several instances.
pub open spec fn challenged_mz_s(q: u64, edim: nat, m: nat, insts: Seq<Seq<Seq<Seq<u64>>>>, zetas: Seq<u64>, n: int) -> Seq<Seq<u64>>
    decreases n,
{
    if n <= 0 {
        vec_zero_s(edim, m)
    } else {
        vec_add_s(q,
            challenged_mz_s(q, edim, m, insts, zetas, n - 1),
            mz_horner_s(q, edim, m, insts[n - 1], zetas[n - 1]))
    }
}

/// All `Mz` extension families of a run are well-formed and share shape.
pub open spec fn mz_mles_wf(mz: Seq<Vec<DenseMultilinearExtension>>, q: u64, edim: nat, s: nat) -> bool {
    forall|i: int, j: int| 0 <= i < mz.len() && 0 <= j < mz[i]@.len()
        ==> (#[trigger] mz[i]@[j]).wf()
            && mz[i]@[j].q == q
            && mz[i]@[j].edim == edim
            && mz[i]@[j].num_vars == s
}

/// The view of one family of extensions.
pub open spec fn mle_family_view(v: Seq<DenseMultilinearExtension>) -> Seq<Seq<Seq<u64>>> {
    v.map_values(|m: DenseMultilinearExtension| m.view_rows())
}

/// Precombine the `Mz` extensions of instances `start..end` under their
/// `zeta` challenges, Horner on `zeta` per instance.
pub fn calculate_challenged_mz_mle(q: u64, edim: usize, s: usize, m_len: usize, mz_mles: &Vec<Vec<DenseMultilinearExtension>>, zeta_s: &Vec<u64>, start: usize, end: usize) -> (r: DenseMultilinearExtension)
    requires
        q >= 2,
        m_len == pow2(s as nat),
        mz_mles_wf(mz_mles@, q, edim as nat, s as nat),
        start <= end,
        end <= mz_mles@.len(),
        end <= zeta_s@.len(),
        seq_wf(q, zeta_s@),
    ensures
        r.wf(),
        r.q == q,
        r.edim == edim,
        r.num_vars == s,
        r.view_rows() == challenged_mz_s(q, edim as nat, m_len as nat,
            mz_mles@.map_values(|v: Vec<DenseMultilinearExtension>| mle_family_view(v@))
                .subrange(start as int, end as int),
            zeta_s@.subrange(start as int, end as int),
            (end - start) as int),
{
    let ghost insts = mz_mles@.map_values(|v: Vec<DenseMultilinearExtension>| mle_family_view(v@))
        .subrange(start as int, end as int);
    let ghost zs = zeta_s@.subrange(start as int, end as int);
    let mut combined = DenseMultilinearExtension::zero(q, edim, s, m_len);
    proof {
        assert(combined.view_rows() =~= vec_zero_s(edim as nat, m_len as nat));
        assert(combined.view_rows() == challenged_mz_s(q, edim as nat, m_len as nat, insts, zs, 0));
    }
    let mut i: usize = start;
    while i < end
        invariant
            q >= 2,
            m_len == pow2(s as nat),
            mz_mles_wf(mz_mles@, q, edim as nat, s as nat),
            start <= i <= end,
            end <= mz_mles@.len(),
            end <= zeta_s@.len(),
            seq_wf(q, zeta_s@),
            insts == mz_mles@.map_values(|v: Vec<DenseMultilinearExtension>| mle_family_view(v@))
                .subrange(start as int, end as int),
            zs == zeta_s@.subrange(start as int, end as int),
            combined.wf(),
            combined.q == q,
            combined.edim == edim,
            combined.num_vars == s,
            combined.view_rows() == challenged_mz_s(q, edim as nat, m_len as nat, insts, zs, (i - start) as int),
        decreases end - i,
    {
        let inst = &mz_mles[i];
        let zeta = zeta_s[i];
        let ze = RqNtt::from_u128(q, edim, zeta as u128);
        proof {
            vstd::arithmetic::div_mod::lemma_small_mod(zeta as nat, q as nat);
        }
        // Horner from the last index down: mle += M; mle *= zeta.
        let mut mle = DenseMultilinearExtension::zero(q, edim, s, m_len);
        let ghost fam = mle_family_view(inst@);
        proof {
            assert(fam.subrange(fam.len() as int, fam.len() as int) =~= Seq::<Seq<Seq<u64>>>::empty());
            assert(mle.view_rows() =~= vec_zero_s(edim as nat, m_len as nat));
            assert(mle.view_rows() == mz_horner_s(q, edim as nat, m_len as nat,
                fam.subrange(fam.len() as int, fam.len() as int), zeta));
        }
        let mut j: usize = inst.len();
        while j > 0
            invariant
                q >= 2,
                m_len == pow2(s as nat),
                mz_mles_wf(mz_mles@, q, edim as nat, s as nat),
                start <= i < end,
                end <= mz_mles@.len(),
                inst@ == mz_mles@[i as int]@,
                fam == mle_family_view(inst@),
                ze.wf(),
                ze.q == q,
                ze.c@ == diag_s(edim as nat, zeta),
                ze.dim() == edim as nat,
                j <= inst@.len(),
                mle.wf(),
                mle.q == q,
                mle.edim == edim,
                mle.num_vars == s,
                mle.view_rows() == mz_horner_s(q, edim as nat, m_len as nat,
                    fam.subrange(j as int, fam.len() as int), zeta),
            decreases j,
        {
            j = j - 1;
            let summed = inst[j].add(&mle);
            mle = summed.scale(&ze);
            proof {
                let suffix = fam.subrange(j as int, fam.len() as int);
                assert(suffix[0] == fam[j as int]);
                assert(suffix.subrange(1, suffix.len() as int) =~= fam.subrange(j + 1, fam.len() as int));
                assert(fam[j as int] == inst@[j as int].view_rows());
                assert(mle.view_rows() =~= mz_horner_s(q, edim as nat, m_len as nat, suffix, zeta));
            }
        }
        proof {
            assert(fam.subrange(0, fam.len() as int) =~= fam);
        }
        combined = combined.add(&mle);
        proof {
            assert(insts[(i - start) as int] == fam);
            assert(zs[(i - start) as int] == zeta);
            assert(combined.view_rows() =~= challenged_mz_s(q, edim as nat, m_len as nat, insts, zs, (i - start) + 1));
        }
        i = i + 1;
    }
    combined
}

/// The linear recombination of the folding step: from the short
/// challenges and the proof evaluations, compute
/// `v_0 = sum_i rho_i theta_i`, `cm_0 = sum_i rho_i cm_i`,
/// `u_0 = sum_i rho_i eta_i` and `x_0 = sum_i rho_i (x_w_i ++ h_i)`.
pub fn compute_v0_u0_x0_cm_0(params: &RingParams, rho_s: &Vec<RqCoeff>, theta_s: &Vec<Vec<RqNtt>>, cm_i_s: &Vec<LCCCS>, eta_s: &Vec<Vec<RqNtt>>) -> (r: (Vec<RqNtt>, Commitment, Vec<RqNtt>, Vec<RqNtt>))
    requires
        params.wf(),
        rho_s@.len() <= cm_i_s@.len(),
        theta_s@.len() == cm_i_s@.len(),
        eta_s@.len() == cm_i_s@.len(),
        cm_i_s@.len() >= 1,
        cm_i_s@[0].x_w@.len() < usize::MAX,
        forall|i: int| 0 <= i < rho_s@.len() ==> (#[trigger] rho_s@[i]).wf(),
        forall|i: int| 0 <= i < rho_s@.len() ==> (#[trigger] rho_s@[i]).q == params.q,
        forall|i: int| 0 <= i < rho_s@.len() ==> (#[trigger] rho_s@[i]).dim() == params.d as nat,
        forall|i: int| 0 <= i < cm_i_s@.len() ==> (#[trigger] cm_i_s@[i]).wf(params.q, params.e as nat),
        forall|i: int| 0 <= i < theta_s@.len() ==> elems_wf((#[trigger] theta_s@[i])@, params.q, params.e as nat),
        forall|i: int| 0 <= i < eta_s@.len() ==> elems_wf((#[trigger] eta_s@[i])@, params.q, params.e as nat),
        forall|i: int| 0 <= i < theta_s@.len() ==> (#[trigger] theta_s@[i])@.len() == theta_s@[0]@.len(),
        forall|i: int| 0 <= i < eta_s@.len() ==> (#[trigger] eta_s@[i])@.len() == eta_s@[0]@.len(),
        forall|i: int| 0 <= i < cm_i_s@.len() ==> (#[trigger] cm_i_s@[i]).cm.cm@.len() == cm_i_s@[0].cm.cm@.len(),
        forall|i: int| 0 <= i < cm_i_s@.len() ==> (#[trigger] cm_i_s@[i]).x_w@.len() == cm_i_s@[0].x_w@.len(),
    ensures
        ({
            let q = params.q;
            let edim = params.e as nat;
            let n = rho_s@.len() as int;
            let rhos = rho_s@.map_values(|c: RqCoeff| crt_s(*params, c.c@));
            &&& elems_wf(r.0@, q, edim) && elems_wf(r.1.cm@, q, edim)
            &&& elems_wf(r.2@, q, edim) && elems_wf(r.3@, q, edim)
            &&& r.0@.len() == theta_s@[0]@.len()
            &&& r.1.cm@.len() == cm_i_s@[0].cm.cm@.len()
            &&& r.2@.len() == eta_s@[0]@.len()
            &&& r.3@.len() == cm_i_s@[0].x_w@.len() + 1
            &&& elems_view(r.0@) == lincomb_s(q, edim, theta_s@[0]@.len(), rhos,
                    theta_s@.map_values(|v: Vec<RqNtt>| elems_view(v@)), n)
            &&& elems_view(r.1.cm@) == lincomb_s(q, edim, cm_i_s@[0].cm.cm@.len(), rhos,
                    cm_i_s@.map_values(|c: LCCCS| elems_view(c.cm.cm@)), n)
            &&& elems_view(r.2@) == lincomb_s(q, edim, eta_s@[0]@.len(), rhos,
                    eta_s@.map_values(|v: Vec<RqNtt>| elems_view(v@)), n)
            &&& elems_view(r.3@) == lincomb_s(q, edim, cm_i_s@[0].x_w@.len() + 1, rhos,
                    cm_i_s@.map_values(|c: LCCCS| elems_view(c.x_w@).push(c.h.c@)), n)
        }),
{
    let q = params.q;
    let edim = params.e;
    let ghost rhos = rho_s@.map_values(|c: RqCoeff| crt_s(*params, c.c@));
    let ghost thetas = theta_s@.map_values(|v: Vec<RqNtt>| elems_view(v@));
    let ghost cms = cm_i_s@.map_values(|c: LCCCS| elems_view(c.cm.cm@));
    let ghost etas = eta_s@.map_values(|v: Vec<RqNtt>| elems_view(v@));
    let ghost xs = cm_i_s@.map_values(|c: LCCCS| elems_view(c.x_w@).push(c.h.c@));

    let vlen = theta_s[0].len();
    let cmlen = cm_i_s[0].cm.cm.len();
    let ulen = eta_s[0].len();
    let xlen = cm_i_s[0].x_w.len() + 1;

    let mut v0 = zero_vec(q, edim, vlen);
    let mut cm0 = zero_vec(q, edim, cmlen);
    let mut u0 = zero_vec(q, edim, ulen);
    let mut x0 = zero_vec(q, edim, xlen);
    let mut i: usize = 0;
    while i < rho_s.len()
        invariant
            params.wf(),
            q == params.q,
            edim == params.e,
            rho_s@.len() <= cm_i_s@.len(),
            theta_s@.len() == cm_i_s@.len(),
            eta_s@.len() == cm_i_s@.len(),
            cm_i_s@.len() >= 1,
            forall|k: int| 0 <= k < rho_s@.len() ==> (#[trigger] rho_s@[k]).wf(),
            forall|k: int| 0 <= k < rho_s@.len() ==> (#[trigger] rho_s@[k]).q == q,
            forall|k: int| 0 <= k < rho_s@.len() ==> (#[trigger] rho_s@[k]).dim() == params.d as nat,
            forall|k: int| 0 <= k < cm_i_s@.len() ==> (#[trigger] cm_i_s@[k]).wf(q, edim as nat),
            forall|k: int| 0 <= k < theta_s@.len() ==> elems_wf((#[trigger] theta_s@[k])@, q, edim as nat),
            forall|k: int| 0 <= k < eta_s@.len() ==> elems_wf((#[trigger] eta_s@[k])@, q, edim as nat),
            forall|k: int| 0 <= k < theta_s@.len() ==> (#[trigger] theta_s@[k])@.len() == vlen,
            forall|k: int| 0 <= k < eta_s@.len() ==> (#[trigger] eta_s@[k])@.len() == ulen,
            forall|k: int| 0 <= k < cm_i_s@.len() ==> (#[trigger] cm_i_s@[k]).cm.cm@.len() == cmlen,
            forall|k: int| 0 <= k < cm_i_s@.len() ==> (#[trigger] cm_i_s@[k]).x_w@.len() + 1 == xlen,
            rhos == rho_s@.map_values(|c: RqCoeff| crt_s(*params, c.c@)),
            thetas == theta_s@.map_values(|v: Vec<RqNtt>| elems_view(v@)),
            cms == cm_i_s@.map_values(|c: LCCCS| elems_view(c.cm.cm@)),
            etas == eta_s@.map_values(|v: Vec<RqNtt>| elems_view(v@)),
            xs == cm_i_s@.map_values(|c: LCCCS| elems_view(c.x_w@).push(c.h.c@)),
            i <= rho_s@.len(),
            elems_wf(v0@, q, edim as nat) && v0@.len() == vlen,
            elems_wf(cm0@, q, edim as nat) && cm0@.len() == cmlen,
            elems_wf(u0@, q, edim as nat) && u0@.len() == ulen,
            elems_wf(x0@, q, edim as nat) && x0@.len() == xlen,
            elems_view(v0@) == lincomb_s(q, edim as nat, vlen as nat, rhos, thetas, i as int),
            elems_view(cm0@) == lincomb_s(q, edim as nat, cmlen as nat, rhos, cms, i as int),
            elems_view(u0@) == lincomb_s(q, edim as nat, ulen as nat, rhos, etas, i as int),
            elems_view(x0@) == lincomb_s(q, edim as nat, xlen as nat, rhos, xs, i as int),
        decreases rho_s@.len() - i,
    {
        let rho_ntt = params.crt(&rho_s[i]);
        proof {
            assert(rhos[i as int] == crt_s(*params, rho_s@[i as int].c@));
        }
        v0 = add_scaled(q, edim, &v0, &rho_ntt, &theta_s[i]);
        cm0 = add_scaled(q, edim, &cm0, &rho_ntt, &cm_i_s[i].cm.cm);
        u0 = add_scaled(q, edim, &u0, &rho_ntt, &eta_s[i]);
        // x_w with h appended
        let inst = &cm_i_s[i];
        let mut xfull: Vec<RqNtt> = Vec::new();
        let mut a: usize = 0;
        while a < inst.x_w.len()
            invariant
                inst.wf(q, edim as nat),
                a <= inst.x_w@.len(),
                xfull@.len() == a,
                forall|b2: int| 0 <= b2 < a ==> (#[trigger] xfull@[b2]).wf(),
                forall|b2: int| 0 <= b2 < a ==> (#[trigger] xfull@[b2]).q == q,
                forall|b2: int| 0 <= b2 < a ==> (#[trigger] xfull@[b2]).dim() == edim as nat,
                forall|b2: int| 0 <= b2 < a ==> (#[trigger] xfull@[b2]).c@ == inst.x_w@[b2].c@,
            decreases inst.x_w@.len() - a,
        {
            xfull.push(inst.x_w[a].clone_elem());
            a = a + 1;
        }
        xfull.push(inst.h.clone_elem());
        proof {
            assert(elems_view(xfull@) =~= elems_view(inst.x_w@).push(inst.h.c@));
            assert(xs[i as int] == elems_view(inst.x_w@).push(inst.h.c@));
            assert(thetas[i as int] == elems_view(theta_s@[i as int]@));
            assert(cms[i as int] == elems_view(cm_i_s@[i as int].cm.cm@));
            assert(etas[i as int] == elems_view(eta_s@[i as int]@));
        }
        x0 = add_scaled(q, edim, &x0, &rho_ntt, &xfull);
        i = i + 1;
    }
    (v0, Commitment { cm: cm0 }, u0, x0)
}

/// A vector of ring zeros.
fn zero_vec(q: u64, edim: usize, len: usize) -> (r: Vec<RqNtt>)
    requires
        q >= 2,
    ensures
        r@.len() == len,
        elems_wf(r@, q, edim as nat),
        elems_view(r@) == vec_zero_s(edim as nat, len as nat),
{
    let mut out: Vec<RqNtt> = Vec::new();
    let mut i: usize = 0;
    while i < len
        invariant
            q >= 2,
            i <= len,
            out@.len() == i,
            forall|k: int| 0 <= k < i ==> (#[trigger] out@[k]).wf(),
            forall|k: int| 0 <= k < i ==> (#[trigger] out@[k]).q == q,
            forall|k: int| 0 <= k < i ==> (#[trigger] out@[k]).dim() == edim as nat,
            forall|k: int| 0 <= k < i ==> (#[trigger] out@[k]).c@ == diag_s(edim as nat, 0u64),
        decreases len - i,
    {
        out.push(RqNtt::zero(q, edim));
        i = i + 1;
    }
    proof {
        assert(elems_view(out@) =~= vec_zero_s(edim as nat, len as nat));
    }
    out
}

/// `acc + rho * v`, coordinate-wise over a vector of ring elements.
fn add_scaled(q: u64, edim: usize, acc: &Vec<RqNtt>, rho: &RqNtt, v: &Vec<RqNtt>) -> (r: Vec<RqNtt>)
    requires
        q >= 2,
        elems_wf(acc@, q, edim as nat),
        elems_wf(v@, q, edim as nat),
        acc@.len() == v@.len(),
        rho.wf(),
        rho.q == q,
        rho.dim() == edim as nat,
    ensures
        r@.len() == acc@.len(),
        elems_wf(r@, q, edim as nat),
        elems_view(r@) == vec_add_s(q, elems_view(acc@), vec_scale_s(q, rho.c@, elems_view(v@))),
{
    let mut out: Vec<RqNtt> = Vec::new();
    let mut i: usize = 0;
    while i < acc.len()
        invariant
            q >= 2,
            elems_wf(acc@, q, edim as nat),
            elems_wf(v@, q, edim as nat),
            acc@.len() == v@.len(),
            rho.wf(),
            rho.q == q,
            rho.dim() == edim as nat,
            i <= acc@.len(),
            out@.len() == i,
            forall|k: int| 0 <= k < i ==> (#[trigger] out@[k]).wf(),
            forall|k: int| 0 <= k < i ==> (#[trigger] out@[k]).q == q,
            forall|k: int| 0 <= k < i ==> (#[trigger] out@[k]).dim() == edim as nat,
            forall|k: int| 0 <= k < i ==> (#[trigger] out@[k]).c@
                == ntt_add_s(q, acc@[k].c@, ntt_mul_s(q, rho.c@, v@[k].c@)),
        decreases acc@.len() - i,
    {
        let s = rho.mul(&v[i]);
        out.push(acc[i].add(&s));
        i = i + 1;
    }
    proof {
        assert(elems_view(out@) =~= vec_add_s(q, elems_view(acc@), vec_scale_s(q, rho.c@, elems_view(v@))));
    }
    out
}

/// Split the last coordinate `h` off the recombined public vector.
pub fn prepare_public_output(r_0: Vec<RqNtt>, v_0: Vec<RqNtt>, cm_0: Commitment, u_0: Vec<RqNtt>, x_0: Vec<RqNtt>, h: RqNtt) -> (r: LCCCS)
    requires
        x_0@.len() >= 1,
    ensures
        r.r@ == r_0@,
        r.v@ == v_0@,
        r.cm.cm@ == cm_0.cm@,
        r.u@ == u_0@,
        elems_view(r.x_w@) == elems_view(x_0@).subrange(0, x_0@.len() - 1),
        r.x_w@.len() == x_0@.len() - 1,
        forall|k: int| 0 <= k < r.x_w@.len() ==> (#[trigger] r.x_w@[k]).q == x_0@[k].q
            && r.x_w@[k].c@ == x_0@[k].c@,
        r.h == h,
{
    let mut x_w: Vec<RqNtt> = Vec::new();
    let mut i: usize = 0;
    let end = x_0.len() - 1;
    while i < end
        invariant
            end < x_0@.len(),
            i <= end,
            x_w@.len() == i,
            forall|k: int| 0 <= k < i ==> (#[trigger] x_w@[k]).q == x_0@[k].q
                && x_w@[k].c@ == x_0@[k].c@,
        decreases end - i,
    {
        x_w.push(x_0[i].clone_elem());
        i = i + 1;
    }
    proof {
        assert(elems_view(x_w@) =~= elems_view(x_0@).subrange(0, x_0@.len() - 1));
    }
    LCCCS { r: r_0, v: v_0, cm: cm_0, u: u_0, x_w, h }
}

/// `prod_{b=1}^{bound}(th^2 - b^2)`, the even part of the norm factor.
pub open spec fn range_prod_s(q: u64, edim: nat, th: Seq<u64>, bound: int) -> Seq<u64>
    decreases bound,
{
    if bound <= 0 {
        diag_s(edim, 1u64)
    } else {
        ntt_mul_s(q,
            range_prod_s(q, edim, th, bound - 1),
            ntt_sub_s(q, ntt_mul_s(q, th, th),
                diag_s(edim, zq_mul(q, ((bound % q as int) as u64), ((bound % q as int) as u64)))))
    }
}

/// The norm-check value of one evaluation:
/// `prod_{b=1}^{b_small - 1}(th^2 - b^2) * th`.
pub open spec fn norm_value_s(q: u64, edim: nat, th: Seq<u64>, b_small: nat) -> Seq<u64> {
    ntt_mul_s(q, range_prod_s(q, edim, th, b_small as int - 1), th)
}

/// The beta-smashing part of the expected evaluation:
/// `sum_{d < n} mu^{d+1} * estar * norm_value(thetas[d])`.
pub open spec fn mu_inner_s(q: u64, edim: nat, mu: u64, thetas: Seq<Seq<u64>>, estar: Seq<u64>, b_small: nat, n: int) -> Seq<u64>
    decreases n,
{
    if n <= 0 {
        diag_s(edim, 0u64)
    } else {
        ntt_add_s(q,
            mu_inner_s(q, edim, mu, thetas, estar, b_small, n - 1),
            ntt_mul_s(q, diag_s(edim, zq_pow(q, mu, n as nat)),
                ntt_mul_s(q, estar, norm_value_s(q, edim, thetas[n - 1], b_small))))
    }
}

/// Sum of the beta-smashing parts over the first `n` instances.
pub open spec fn mu_part_s(q: u64, edim: nat, mus: Seq<u64>, thetas: Seq<Seq<Seq<u64>>>, estar: Seq<u64>, b_small: nat, n: int) -> Seq<u64>
    decreases n,
{
    if n <= 0 {
        diag_s(edim, 0u64)
    } else {
        ntt_add_s(q,
            mu_part_s(q, edim, mus, thetas, estar, b_small, n - 1),
            mu_inner_s(q, edim, mus[n - 1], thetas[n - 1], estar, b_small, thetas[n - 1].len() as int))
    }
}

/// The alpha part: `sum_{i < n} e_s[i] * sum_j alpha_i^j theta_i[j-1]`.
pub open spec fn alpha_part_s(q: u64, edim: nat, alphas: Seq<u64>, es: Seq<Seq<u64>>, thetas: Seq<Seq<Seq<u64>>>, n: int) -> Seq<u64>
    decreases n,
{
    if n <= 0 {
        diag_s(edim, 0u64)
    } else {
        ntt_add_s(q,
            alpha_part_s(q, edim, alphas, es, thetas, n - 1),
            ntt_mul_s(q, es[n - 1], powsum_s(q, edim, alphas[n - 1], thetas[n - 1], thetas[n - 1].len() as int)))
    }
}

/// Sum over `start <= i < end` of `sum_j zeta_i^j eta_i[j-1]`.
pub open spec fn zeta_sum_s(q: u64, edim: nat, zetas: Seq<u64>, etas: Seq<Seq<Seq<u64>>>, start: int, end: int) -> Seq<u64>
    decreases end - start,
{
    if end <= start {
        diag_s(edim, 0u64)
    } else {
        ntt_add_s(q,
            zeta_sum_s(q, edim, zetas, etas, start, end - 1),
            powsum_s(q, edim, zetas[end - 1], etas[end - 1], etas[end - 1].len() as int))
    }
}

/// The scalar the sumcheck's final claim must equal, recomputed from the
/// challenges, the claimed evaluations, and the two `eq` evaluations:
/// the alpha part, plus `e_s[0]` and `e_s[K]` times the zeta-weighted
/// eta sums of the two instance groups, plus the beta-smashing part.
pub open spec fn expected_eval_s(q: u64, edim: nat, alphas: Seq<u64>, mus: Seq<u64>, thetas: Seq<Seq<Seq<u64>>>, estar: Seq<u64>, es: Seq<Seq<u64>>, zetas: Seq<u64>, etas: Seq<Seq<Seq<u64>>>, k: int, b_small: nat) -> Seq<u64> {
    ntt_add_s(q,
        ntt_add_s(q,
            alpha_part_s(q, edim, alphas, es, thetas, 2 * k),
            ntt_add_s(q,
                ntt_mul_s(q, es[0], zeta_sum_s(q, edim, zetas, etas, 0, k)),
                ntt_mul_s(q, es[k], zeta_sum_s(q, edim, zetas, etas, k, 2 * k)))),
        mu_part_s(q, edim, mus, thetas, estar, b_small, k))
}

/// All rows of a matrix of evaluations are well-formed ring elements.
pub open spec fn eval_rows_wf(rows: Seq<Vec<RqNtt>>, q: u64, edim: nat) -> bool {
    forall|i: int| 0 <= i < rows.len() ==> elems_wf((#[trigger] rows[i])@, q, edim)
}

/// The view of a matrix of evaluations.
pub open spec fn eval_rows_view(rows: Seq<Vec<RqNtt>>) -> Seq<Seq<Seq<u64>>> {
    rows.map_values(|v: Vec<RqNtt>| elems_view(v@))
}

/// `prod_{b=1}^{b_small-1}(th^2 - b^2) * th` for one evaluation.
fn norm_value(q: u64, edim: usize, th: &RqNtt, b_small: usize) -> (r: RqNtt)
    requires
        q >= 2,
        th.wf(),
        th.q == q,
        th.dim() == edim as nat,
        b_small >= 1,
    ensures
        r.wf(),
        r.q == q,
        r.dim() == edim as nat,
        r.c@ == norm_value_s(q, edim as nat, th.c@, b_small as nat),
{
    let mut acc = RqNtt::from_u128(q, edim, 1u128);
    proof {
        vstd::arithmetic::div_mod::lemma_small_mod(1nat, q as nat);
    }
    let sq = th.mul(th);
    let mut b: usize = 1;
    while b < b_small
        invariant
            q >= 2,
            th.wf(),
            th.q == q,
            th.dim() == edim as nat,
            sq.wf(),
            sq.q == q,
            sq.c@ == ntt_mul_s(q, th.c@, th.c@),
            sq.dim() == edim as nat,
            1 <= b <= b_small,
            acc.wf(),
            acc.q == q,
            acc.dim() == edim as nat,
            acc.c@ == range_prod_s(q, edim as nat, th.c@, b as int - 1),
        decreases b_small - b,
    {
        let bm = crate::zq::reduce_mod(q, b as u64);
        let bsq = mul_mod(q, bm, bm);
        let be = RqNtt::from_u128(q, edim, bsq as u128);
        proof {
            vstd::arithmetic::div_mod::lemma_small_mod(bsq as nat, q as nat);
        }
        let factor = sq.sub(&be);
        proof {
            assert(factor.c@ =~= ntt_sub_s(q, ntt_mul_s(q, th.c@, th.c@),
                diag_s(edim as nat, zq_mul(q, ((b as int % q as int) as u64), ((b as int % q as int) as u64)))));
        }
        acc = acc.mul(&factor);
        b = b + 1;
    }
    acc.mul(th)
}

/// Recompute the expected final sumcheck evaluation from the challenges
/// and the claimed `theta`/`eta` evaluations.
pub fn compute_sumcheck_claim_expected_value(q: u64, edim: usize, alpha_s: &Vec<u64>, mu_s: &Vec<u64>, theta_s: &Vec<Vec<RqNtt>>, e_asterisk: &RqNtt, e_s: &Vec<RqNtt>, zeta_s: &Vec<u64>, eta_s: &Vec<Vec<RqNtt>>, k: usize, b_small: usize) -> (r: RqNtt)
    requires
        q >= 2,
        b_small >= 1,
        k >= 1,
        k * 2 <= usize::MAX,
        k * 2 <= theta_s@.len(),
        k * 2 <= eta_s@.len(),
        k * 2 <= alpha_s@.len(),
        k * 2 <= zeta_s@.len(),
        k <= mu_s@.len(),
        k * 2 <= e_s@.len(),
        seq_wf(q, alpha_s@),
        seq_wf(q, zeta_s@),
        seq_wf(q, mu_s@),
        eval_rows_wf(theta_s@, q, edim as nat),
        eval_rows_wf(eta_s@, q, edim as nat),
        elems_wf(e_s@, q, edim as nat),
        e_asterisk.wf(),
        e_asterisk.q == q,
        e_asterisk.dim() == edim as nat,
    ensures
        r.wf(),
        r.q == q,
        r.dim() == edim as nat,
        r.c@ == expected_eval_s(q, edim as nat, alpha_s@, mu_s@, eval_rows_view(theta_s@),
            e_asterisk.c@, elems_view(e_s@), zeta_s@, eval_rows_view(eta_s@), k as int, b_small as nat),
{
    let ghost thetas = eval_rows_view(theta_s@);
    let k2 = 2 * k;
    // alpha part
    let mut apart = RqNtt::zero(q, edim);
    let mut i: usize = 0;
    while i < k2
        invariant
            q >= 2,
            k2 == 2 * k,
            k * 2 <= theta_s@.len(),
            k * 2 <= alpha_s@.len(),
            k * 2 <= e_s@.len(),
            seq_wf(q, alpha_s@),
            eval_rows_wf(theta_s@, q, edim as nat),
            elems_wf(e_s@, q, edim as nat),
            thetas == eval_rows_view(theta_s@),
            i <= k2,
            apart.wf(),
            apart.q == q,
            apart.dim() == edim as nat,
            apart.c@ == alpha_part_s(q, edim as nat, alpha_s@, elems_view(e_s@), thetas, i as int),
        decreases k2 - i,
    {
        let ps = powsum(q, edim, alpha_s[i], &theta_s[i]);
        let term = e_s[i].mul(&ps);
        apart = apart.add(&term);
        proof {
            assert(thetas[i as int] == elems_view(theta_s@[i as int]@));
            assert(elems_view(e_s@)[i as int] == e_s@[i as int].c@);
        }
        i = i + 1;
    }
    // zeta parts for the two instance groups
    let z1 = zeta_group_sum(q, edim, zeta_s, eta_s, 0, k);
    let z2 = zeta_group_sum(q, edim, zeta_s, eta_s, k, k2);
    let g2 = e_s[0].mul(&z1).add(&e_s[k].mul(&z2));
    proof {
        assert(elems_view(e_s@)[0] == e_s@[0].c@);
        assert(elems_view(e_s@)[k as int] == e_s@[k as int].c@);
    }
    // beta-smashing part
    let mut mpart = RqNtt::zero(q, edim);
    let mut kk: usize = 0;
    while kk < k
        invariant
            q >= 2,
            b_small >= 1,
            k * 2 <= theta_s@.len(),
            k <= mu_s@.len(),
            seq_wf(q, mu_s@),
            eval_rows_wf(theta_s@, q, edim as nat),
            e_asterisk.wf(),
            e_asterisk.q == q,
            e_asterisk.dim() == edim as nat,
            thetas == eval_rows_view(theta_s@),
            kk <= k,
            mpart.wf(),
            mpart.q == q,
            mpart.dim() == edim as nat,
            mpart.c@ == mu_part_s(q, edim as nat, mu_s@, thetas, e_asterisk.c@, b_small as nat, kk as int),
        decreases k - kk,
    {
        let mu = mu_s[kk];
        let row = &theta_s[kk];
        let mut inner = RqNtt::zero(q, edim);
        let mut pw: u64 = 1 % q;
        proof {
            vstd::arithmetic::div_mod::lemma_small_mod(1nat, q as nat);
        }
        let mut d: usize = 0;
        while d < row.len()
            invariant
                q >= 2,
                b_small >= 1,
                mu < q,
                elems_wf(row@, q, edim as nat),
                e_asterisk.wf(),
                e_asterisk.q == q,
                e_asterisk.dim() == edim as nat,
                d <= row@.len(),
                pw == zq_pow(q, mu, d as nat),
                pw < q,
                inner.wf(),
                inner.q == q,
                inner.dim() == edim as nat,
                inner.c@ == mu_inner_s(q, edim as nat, mu, elems_view(row@), e_asterisk.c@, b_small as nat, d as int),
            decreases row@.len() - d,
        {
            pw = mul_mod(q, mu, pw);
            let pe = RqNtt::from_u128(q, edim, pw as u128);
            proof {
                vstd::arithmetic::div_mod::lemma_small_mod(pw as nat, q as nat);
                assert(pw == zq_pow(q, mu, (d + 1) as nat));
            }
            let nv = norm_value(q, edim, &row[d], b_small);
            let term = pe.mul(&e_asterisk.mul(&nv));
            inner = inner.add(&term);
            proof {
                assert(elems_view(row@)[d as int] == row@[d as int].c@);
            }
            d = d + 1;
        }
        proof {
            assert(elems_view(row@).len() == row@.len());
            assert(thetas[kk as int] == elems_view(theta_s@[kk as int]@));
        }
        mpart = mpart.add(&inner);
        kk = kk + 1;
    }
    apart.add(&g2).add(&mpart)
}

/// `sum_{start <= i < end} sum_j zeta_i^j eta_i[j-1]`.
fn zeta_group_sum(q: u64, edim: usize, zeta_s: &Vec<u64>, eta_s: &Vec<Vec<RqNtt>>, start: usize, end: usize) -> (r: RqNtt)
    requires
        q >= 2,
        start <= end,
        end <= eta_s@.len(),
        end <= zeta_s@.len(),
        seq_wf(q, zeta_s@),
        eval_rows_wf(eta_s@, q, edim as nat),
    ensures
        r.wf(),
        r.q == q,
        r.dim() == edim as nat,
        r.c@ == zeta_sum_s(q, edim as nat, zeta_s@, eval_rows_view(eta_s@), start as int, end as int),
{
    let mut acc = RqNtt::zero(q, edim);
    let mut i: usize = start;
    while i < end
        invariant
            q >= 2,
            start <= i <= end,
            end <= eta_s@.len(),
            end <= zeta_s@.len(),
            seq_wf(q, zeta_s@),
            eval_rows_wf(eta_s@, q, edim as nat),
            acc.wf(),
            acc.q == q,
            acc.dim() == edim as nat,
            acc.c@ == zeta_sum_s(q, edim as nat, zeta_s@, eval_rows_view(eta_s@), start as int, i as int),
        decreases end - i,
    {
        let ps = powsum(q, edim, zeta_s[i], &eta_s[i]);
        acc = acc.add(&ps);
        proof {
            assert(eval_rows_view(eta_s@)[i as int] == elems_view(eta_s@[i as int]@));
        }
        i = i + 1;
    }
    acc
}

/// The non-interactive folding proof: the sumcheck proof plus the
/// claimed `theta` (witness-extension) and `eta` (constraint-extension)
/// evaluations at the sumcheck point.
pub struct FoldingProof {
    pub pointshift_sumcheck_proof: Proof,
    pub theta_s: Vec<Vec<RqNtt>>,
    pub eta_s: Vec<Vec<RqNtt>>,
}

impl FoldingProof {
    pub open spec fn wf(&self, q: u64, edim: nat) -> bool {
        &&& crate::sumcheck::proof_wf(&self.pointshift_sumcheck_proof, q, edim)
        &&& eval_rows_wf(self.theta_s@, q, edim)
        &&& eval_rows_wf(self.eta_s@, q, edim)
    }
}

/// Move the `f_hat` tables out of the witnesses, keeping the `f` vectors.
fn split_witnesses(w_s: Vec<Witness>) -> (r: (Vec<Vec<DenseMultilinearExtension>>, Vec<Vec<RqNtt>>))
    requires
        forall|i: int| 0 <= i < w_s@.len() ==> (#[trigger] w_s@[i]).f_hat is Some,
    ensures
        r.0@.len() == w_s@.len(),
        r.1@.len() == w_s@.len(),
        forall|i: int| 0 <= i < w_s@.len() ==> (#[trigger] r.0@[i])@ == w_s@[i].f_hat->0@,
        forall|i: int| 0 <= i < w_s@.len() ==> (#[trigger] r.1@[i])@ == w_s@[i].f@,
{
    let ghost w0 = w_s@;
    let n = w_s.len();
    let mut stack = w_s;
    let mut rev_fh: Vec<Vec<DenseMultilinearExtension>> = Vec::new();
    let mut rev_f: Vec<Vec<RqNtt>> = Vec::new();
    while stack.len() > 0
        invariant
            w0.len() == n,
            forall|i: int| 0 <= i < w0.len() ==> (#[trigger] w0[i]).f_hat is Some,
            stack@ == w0.subrange(0, stack@.len() as int),
            stack@.len() + rev_fh@.len() == n,
            rev_f@.len() == rev_fh@.len(),
            forall|j: int| 0 <= j < rev_fh@.len()
                ==> (#[trigger] rev_fh@[j])@ == w0[n - 1 - j].f_hat->0@,
            forall|j: int| 0 <= j < rev_f@.len()
                ==> (#[trigger] rev_f@[j])@ == w0[n - 1 - j].f@,
        decreases stack@.len(),
    {
        let ghost slen = stack@.len();
        let wopt = stack.pop();
        let mut w = match wopt {
            Some(w) => w,
            None => {
                proof {
                    assert(false);
                }
                unreached()
            },
        };
        proof {
            assert(w == w0.subrange(0, slen as int)[slen - 1]);
            assert(w == w0[slen - 1]);
            assert(stack@ =~= w0.subrange(0, stack@.len() as int));
        }
        let fh = w.take_f_hat();
        rev_fh.push(fh);
        rev_f.push(w.f);
    }
    let mut fhats: Vec<Vec<DenseMultilinearExtension>> = Vec::new();
    let mut fs: Vec<Vec<RqNtt>> = Vec::new();
    let ghost rfh0 = rev_fh@;
    let ghost rf0 = rev_f@;
    while rev_fh.len() > 0
        invariant
            w0.len() == n,
            rfh0.len() == n,
            rf0.len() == n,
            forall|j: int| 0 <= j < n ==> (#[trigger] rfh0[j])@ == w0[n - 1 - j].f_hat->0@,
            forall|j: int| 0 <= j < n ==> (#[trigger] rf0[j])@ == w0[n - 1 - j].f@,
            rev_fh@ == rfh0.subrange(0, rev_fh@.len() as int),
            rev_f@ == rf0.subrange(0, rev_f@.len() as int),
            rev_f@.len() == rev_fh@.len(),
            fhats@.len() + rev_fh@.len() == n,
            fs@.len() == fhats@.len(),
            forall|i: int| 0 <= i < fhats@.len() ==> (#[trigger] fhats@[i])@ == w0[i].f_hat->0@,
            forall|i: int| 0 <= i < fs@.len() ==> (#[trigger] fs@[i])@ == w0[i].f@,
        decreases rev_fh@.len(),
    {
        let ghost rlen = rev_fh@.len();
        let fh = match rev_fh.pop() {
            Some(v) => v,
            None => {
                proof {
                    assert(false);
                }
                unreached()
            },
        };
        let f = match rev_f.pop() {
            Some(v) => v,
            None => {
                proof {
                    assert(false);
                }
                unreached()
            },
        };
        proof {
            assert(fh == rfh0.subrange(0, rlen as int)[rlen - 1]);
            assert(fh == rfh0[rlen - 1]);
            assert(f == rf0[rlen - 1]);
            assert(rev_fh@ =~= rfh0.subrange(0, rev_fh@.len() as int));
            assert(rev_f@ =~= rf0.subrange(0, rev_f@.len() as int));
            assert(n - 1 - (rlen - 1) == n - rlen);
        }
        fhats.push(fh);
        fs.push(f);
    }
    (fhats, fs)
}

/// Evaluate each family of extensions at the sumcheck point.
fn eval_rows(q: u64, edim: usize, fams: &Vec<Vec<DenseMultilinearExtension>>, r0: &Vec<RqNtt>) -> (r: Vec<Vec<RqNtt>>)
    requires
        q >= 2,
        forall|i: int, j: int| 0 <= i < fams@.len() && 0 <= j < fams@[i]@.len()
            ==> (#[trigger] fams@[i]@[j]).wf()
                && fams@[i]@[j].q == q
                && fams@[i]@[j].edim == edim
                && fams@[i]@[j].num_vars == r0@.len(),
        forall|i: int| 0 <= i < fams@.len() ==> (#[trigger] fams@[i])@.len() >= 1,
        elems_wf(r0@, q, edim as nat),
    ensures
        r@.len() == fams@.len(),
        eval_rows_wf(r@, q, edim as nat),
        forall|i: int| 0 <= i < r@.len() ==> (#[trigger] r@[i])@.len() == fams@[i]@.len(),
        forall|i: int, j: int| 0 <= i < r@.len() && 0 <= j < r@[i]@.len()
            ==> (#[trigger] r@[i]@[j]).c@ == eval_mle_s(q, fams@[i]@[j].view_rows(),
                r0@.map_values(|e: RqNtt| e.c@)),
{
    let mut out: Vec<Vec<RqNtt>> = Vec::new();
    let mut i: usize = 0;
    while i < fams.len()
        invariant
            q >= 2,
            forall|a: int, j: int| 0 <= a < fams@.len() && 0 <= j < fams@[a]@.len()
                ==> (#[trigger] fams@[a]@[j]).wf()
                    && fams@[a]@[j].q == q
                    && fams@[a]@[j].edim == edim
                    && fams@[a]@[j].num_vars == r0@.len(),
            forall|a: int| 0 <= a < fams@.len() ==> (#[trigger] fams@[a])@.len() >= 1,
            elems_wf(r0@, q, edim as nat),
            i <= fams@.len(),
            out@.len() == i,
            forall|a: int| 0 <= a < i ==> elems_wf((#[trigger] out@[a])@, q, edim as nat),
            forall|a: int| 0 <= a < i ==> (#[trigger] out@[a])@.len() == fams@[a]@.len(),
            forall|a: int, j: int| 0 <= a < i && 0 <= j < out@[a]@.len()
                ==> (#[trigger] out@[a]@[j]).c@ == eval_mle_s(q, fams@[a]@[j].view_rows(),
                    r0@.map_values(|e: RqNtt| e.c@)),
        decreases fams@.len() - i,
    {
        let fam = &fams[i];
        proof {
            assert(fam@[0].q == q);
            assert(fam@[0].edim == edim);
        }
        let row = evaluate_mles(fam, r0);
        out.push(row);
        i = i + 1;
    }
    out
}

/// The evaluation points of the input instances.
fn get_ris(cm_i_s: &Vec<LCCCS>, q: u64, edim: usize) -> (r: Vec<Vec<RqNtt>>)
    requires
        forall|i: int| 0 <= i < cm_i_s@.len() ==> (#[trigger] cm_i_s@[i]).wf(q, edim as nat),
        q >= 2,
    ensures
        r@.len() == cm_i_s@.len(),
        forall|i: int| 0 <= i < r@.len() ==> elems_wf((#[trigger] r@[i])@, q, edim as nat),
        forall|i: int| 0 <= i < r@.len() ==> elems_view((#[trigger] r@[i])@) == elems_view(cm_i_s@[i].r@),
        forall|i: int| 0 <= i < r@.len() ==> (#[trigger] r@[i])@.len() == cm_i_s@[i].r@.len(),
{
    let mut out: Vec<Vec<RqNtt>> = Vec::new();
    let mut i: usize = 0;
    while i < cm_i_s.len()
        invariant
            q >= 2,
            forall|a: int| 0 <= a < cm_i_s@.len() ==> (#[trigger] cm_i_s@[a]).wf(q, edim as nat),
            i <= cm_i_s@.len(),
            out@.len() == i,
            forall|a: int| 0 <= a < i ==> elems_wf((#[trigger] out@[a])@, q, edim as nat),
            forall|a: int| 0 <= a < i ==> elems_view((#[trigger] out@[a])@) == elems_view(cm_i_s@[a].r@),
            forall|a: int| 0 <= a < i ==> (#[trigger] out@[a])@.len() == cm_i_s@[a].r@.len(),
        decreases cm_i_s@.len() - i,
    {
        let src = &cm_i_s[i].r;
        let mut row: Vec<RqNtt> = Vec::new();
        let mut j: usize = 0;
        while j < src.len()
            invariant
                q >= 2,
                elems_wf(src@, q, edim as nat),
                j <= src@.len(),
                row@.len() == j,
                forall|b2: int| 0 <= b2 < j ==> (#[trigger] row@[b2]).wf()
                    && row@[b2].q == q && row@[b2].dim() == edim as nat
                    && row@[b2].c@ == src@[b2].c@,
            decreases src@.len() - j,
        {
            row.push(src[j].clone_elem());
            j = j + 1;
        }
        proof {
            assert(elems_view(row@) =~= elems_view(src@));
        }
        out.push(row);
        i = i + 1;
    }
    out
}

/// The sumcheck randomness as ring elements: the diagonal embedding of
/// each squeezed scalar.
pub fn get_sumcheck_randomness(q: u64, edim: usize, prover_state: &ProverState) -> (r: Vec<RqNtt>)
    requires
        q >= 2,
        seq_wf(q, prover_state.randomness@),
    ensures
        r@.len() == prover_state.randomness@.len(),
        elems_wf(r@, q, edim as nat),
        forall|i: int| 0 <= i < r@.len()
            ==> (#[trigger] r@[i]).c@ == diag_s(edim as nat, prover_state.randomness@[i]),
{
    let mut out: Vec<RqNtt> = Vec::new();
    let mut i: usize = 0;
    while i < prover_state.randomness.len()
        invariant
            q >= 2,
            seq_wf(q, prover_state.randomness@),
            i <= prover_state.randomness@.len(),
            out@.len() == i,
            forall|k: int| 0 <= k < i ==> (#[trigger] out@[k]).wf()
                && out@[k].q == q && out@[k].dim() == edim as nat
                && out@[k].c@ == diag_s(edim as nat, prover_state.randomness@[k]),
        decreases prover_state.randomness@.len() - i,
    {
        let v = prover_state.randomness[i];
        let e = RqNtt::from_u128(q, edim, v as u128);
        proof {
            vstd::arithmetic::div_mod::lemma_small_mod(v as nat, q as nat);
        }
        out.push(e);
        i = i + 1;
    }
    out
}

/// The folded witness vector `f_0 = sum_i rho_i * f_i`.
pub fn compute_f_0(params: &RingParams, rho_s: &Vec<RqCoeff>, fs: &Vec<Vec<RqNtt>>) -> (r: Vec<RqNtt>)
    requires
        params.wf(),
        rho_s@.len() <= fs@.len(),
        fs@.len() >= 1,
        forall|i: int| 0 <= i < rho_s@.len() ==> (#[trigger] rho_s@[i]).wf()
            && rho_s@[i].q == params.q && rho_s@[i].dim() == params.d as nat,
        forall|i: int| 0 <= i < fs@.len() ==> elems_wf((#[trigger] fs@[i])@, params.q, params.e as nat),
        forall|i: int| 0 <= i < fs@.len() ==> (#[trigger] fs@[i])@.len() == fs@[0]@.len(),
    ensures
        r@.len() == fs@[0]@.len(),
        elems_wf(r@, params.q, params.e as nat),
        elems_view(r@) == lincomb_s(params.q, params.e as nat, fs@[0]@.len(),
            rho_s@.map_values(|c: RqCoeff| crt_s(*params, c.c@)),
            fs@.map_values(|v: Vec<RqNtt>| elems_view(v@)),
            rho_s@.len() as int),
{
    let q = params.q;
    let edim = params.e;
    let ghost rhos = rho_s@.map_values(|c: RqCoeff| crt_s(*params, c.c@));
    let ghost ws = fs@.map_values(|v: Vec<RqNtt>| elems_view(v@));
    let flen = fs[0].len();
    let mut acc = zero_vec(q, edim, flen);
    let mut i: usize = 0;
    while i < rho_s.len()
        invariant
            params.wf(),
            q == params.q,
            edim == params.e,
            rho_s@.len() <= fs@.len(),
            forall|k: int| 0 <= k < rho_s@.len() ==> (#[trigger] rho_s@[k]).wf()
                && rho_s@[k].q == q && rho_s@[k].dim() == params.d as nat,
            forall|k: int| 0 <= k < fs@.len() ==> elems_wf((#[trigger] fs@[k])@, q, edim as nat),
            forall|k: int| 0 <= k < fs@.len() ==> (#[trigger] fs@[k])@.len() == flen,
            rhos == rho_s@.map_values(|c: RqCoeff| crt_s(*params, c.c@)),
            ws == fs@.map_values(|v: Vec<RqNtt>| elems_view(v@)),
            i <= rho_s@.len(),
            acc@.len() == flen,
            elems_wf(acc@, q, edim as nat),
            elems_view(acc@) == lincomb_s(q, edim as nat, flen as nat, rhos, ws, i as int),
        decreases rho_s@.len() - i,
    {
        let rho_ntt = params.crt(&rho_s[i]);
        proof {
            assert(rhos[i as int] == crt_s(*params, rho_s@[i as int].c@));
            assert(ws[i as int] == elems_view(fs@[i as int]@));
        }
        acc = add_scaled(q, edim, &acc, &rho_ntt, &fs[i]);
        i = i + 1;
    }
    acc
}


/// The shifted factors of one beta-smashing product:
/// `eq(beta) * F * (F - 1)(F + 1) ... (F - (b-1))(F + (b-1))`.
pub open spec fn norm_factors_s(eqb: usize, fidx: usize, b: int, q: u64) -> Seq<(usize, u64)>
    decreases b,
{
    if b <= 1 {
        seq![(eqb, 0u64), (fidx, 0u64)]
    } else {
        norm_factors_s(eqb, fidx, b - 1, q)
            + seq![(fidx, ((b - 1) as u64)), (fidx, ((q - (b - 1)) as u64))]
    }
}

/// The product list of the composite polynomial: the alpha-combination
/// group, the two zeta-precombined constraint products, and the
/// beta-smashing norm group over the first `K` instances.
pub open spec fn g_products_s(q: u64, edim: nat, k: usize, e_cnt: nat, alphas: Seq<u64>, mus: Seq<u64>, b_small: usize) -> Seq<(Seq<u64>, Seq<(usize, u64)>)> {
    Seq::new((2 * k * e_cnt) as nat, |p: int| (
        diag_s(edim, zq_pow(q, alphas[p / e_cnt as int], (p % e_cnt as int + 1) as nat)),
        seq![(((p / e_cnt as int) as usize), 0u64), (((2 * k + p) as usize), 0u64)]))
    + seq![
        (diag_s(edim, 1u64), seq![(0usize, 0u64), (((2 * k + 2 * k * e_cnt) as usize), 0u64)]),
        (diag_s(edim, 1u64), seq![(k, 0u64), (((2 * k + 2 * k * e_cnt + 1) as usize), 0u64)])]
    + Seq::new((k * e_cnt) as nat, |p: int| (
        diag_s(edim, zq_pow(q, mus[p / e_cnt as int], (p % e_cnt as int + 1) as nat)),
        norm_factors_s(((2 * k + 2 * k * e_cnt + 2) as usize), ((2 * k + p) as usize), b_small as int, q)))
}

/// The factor list of the composite polynomial: the `eq` tables of the
/// instance points, the flattened witness extensions, the two
/// zeta-precombined constraint extensions, and the `eq` table of beta.
pub open spec fn g_tables_s(q: u64, edim: nat, k: usize, e_cnt: nat, ris_pts: Seq<Seq<Seq<u64>>>, fhats: Seq<Seq<Seq<Seq<u64>>>>, m1: Seq<Seq<u64>>, m2: Seq<Seq<u64>>, betas: Seq<u64>) -> Seq<Seq<Seq<u64>>> {
    Seq::new((2 * k + 2 * k * e_cnt + 3) as nat, |a: int|
        if a < 2 * k {
            crate::mle::eq_table_s(q, edim, ris_pts[a])
        } else if a < 2 * k + 2 * k * e_cnt {
            fhats[(a - 2 * k) / e_cnt as int][(a - 2 * k) % e_cnt as int]
        } else if a == 2 * k + 2 * k * e_cnt {
            m1
        } else if a == 2 * k + 2 * k * e_cnt + 1 {
            m2
        } else {
            crate::mle::eq_table_s(q, edim, Seq::new(betas.len(), |i: int| diag_s(edim, betas[i])))
        })
}

/// Build the composite sumcheck polynomial `g` over `log m` variables,
/// of degree `2 * b_small`: the alpha-combination of the `f_hat`
/// factors against the instances' `eq` polynomials, the two
/// zeta-precombined constraint extensions against the `eq` polynomials
/// of the two instance groups, and the beta-smashing norm term
/// `sum mu^{d+1} eq(beta, X) (F - 1)(F + 1)...(F - (b_small-1))(F + (b_small-1)) F`.
pub fn create_sumcheck_polynomial(q: u64, edim: usize, log_m: usize, m_len: usize, f_hat_mles: &Vec<Vec<DenseMultilinearExtension>>, alpha_s: &Vec<u64>, prechallenged_ms_1: DenseMultilinearExtension, prechallenged_ms_2: DenseMultilinearExtension, ris: &Vec<Vec<RqNtt>>, beta_s: &Vec<u64>, mu_s: &Vec<u64>, dp: &DecompositionParams) -> (g: VirtualPolynomial)
    requires
        q >= 2,
        dp.k >= 1,
        dp.b_small >= 1,
        2 * dp.b_small < usize::MAX,
        (dp.b_small as u64) < q,
        m_len == pow2(log_m as nat),
        f_hat_mles@.len() == 2 * dp.k,
        forall|i: int, j: int| 0 <= i < f_hat_mles@.len() && 0 <= j < f_hat_mles@[i]@.len()
            ==> (#[trigger] f_hat_mles@[i]@[j]).wf()
                && f_hat_mles@[i]@[j].q == q
                && f_hat_mles@[i]@[j].edim == edim
                && f_hat_mles@[i]@[j].num_vars == log_m,
        forall|i: int| 0 <= i < f_hat_mles@.len()
            ==> (#[trigger] f_hat_mles@[i])@.len() == f_hat_mles@[0]@.len(),
        f_hat_mles@[0]@.len() >= 1,
        2 * dp.k + 2 * dp.k * f_hat_mles@[0]@.len() + 3 < usize::MAX,
        alpha_s@.len() == 2 * dp.k,
        seq_wf(q, alpha_s@),
        prechallenged_ms_1.wf() && prechallenged_ms_1.q == q
            && prechallenged_ms_1.edim == edim && prechallenged_ms_1.num_vars == log_m,
        prechallenged_ms_2.wf() && prechallenged_ms_2.q == q
            && prechallenged_ms_2.edim == edim && prechallenged_ms_2.num_vars == log_m,
        ris@.len() == 2 * dp.k,
        forall|i: int| 0 <= i < ris@.len() ==> elems_wf((#[trigger] ris@[i])@, q, edim as nat),
        forall|i: int| 0 <= i < ris@.len() ==> (#[trigger] ris@[i])@.len() == log_m,
        beta_s@.len() == log_m,
        seq_wf(q, beta_s@),
        mu_s@.len() == dp.k,
        seq_wf(q, mu_s@),
    ensures
        g.wf(),
        g.q == q,
        g.edim == edim,
        g.num_vars == log_m,
        g.degree == 2 * dp.b_small,
        g.mles@.len() == 2 * dp.k + 2 * dp.k * f_hat_mles@[0]@.len() + 3,
        // the factor list: the eq polynomials of the instances' points,
        // the flattened witness extensions, the two precombined
        // constraint extensions, and the eq polynomial of beta
        forall|i: int| 0 <= i < 2 * dp.k ==> (#[trigger] g.mles@[i]).view_rows()
            == crate::mle::eq_table_s(q, edim as nat, ris@[i]@.map_values(|e: RqNtt| e.c@)),
        forall|i: int, d: int| 0 <= i < 2 * dp.k && 0 <= d < f_hat_mles@[0]@.len()
            ==> (#[trigger] g.mles@[2 * dp.k + i * f_hat_mles@[0]@.len() + d]).view_rows()
                == f_hat_mles@[i]@[d].view_rows(),
        g.mles@[2 * dp.k + 2 * dp.k * f_hat_mles@[0]@.len()].view_rows()
            == prechallenged_ms_1.view_rows(),
        g.mles@[2 * dp.k + 2 * dp.k * f_hat_mles@[0]@.len() + 1].view_rows()
            == prechallenged_ms_2.view_rows(),
        g.mles@[2 * dp.k + 2 * dp.k * f_hat_mles@[0]@.len() + 2].view_rows()
            == crate::mle::eq_table_s(q, edim as nat,
                Seq::new(beta_s@.len(), |i: int| diag_s(edim as nat, beta_s@[i]))),
        crate::sumcheck::tables_view(g.mles@) == g_tables_s(q, edim as nat, dp.k,
            f_hat_mles@[0]@.len(),
            ris@.map_values(|r: Vec<RqNtt>| elems_view(r@)),
            f_hat_mles@.map_values(|fam: Vec<DenseMultilinearExtension>| mle_family_view(fam@)),
            prechallenged_ms_1.view_rows(), prechallenged_ms_2.view_rows(), beta_s@),
        crate::sumcheck::products_view(g.products@) == g_products_s(q, edim as nat, dp.k,
            f_hat_mles@[0]@.len(), alpha_s@, mu_s@, dp.b_small),
{
    let k = dp.k;
    let e_cnt = f_hat_mles[0].len();
    let b_small = dp.b_small;

    let mut mles: Vec<DenseMultilinearExtension> = Vec::new();
    // eq polynomials of the instances' evaluation points: indices 0 .. 2k
    let mut i: usize = 0;
    while i < ris.len()
        invariant
            q >= 2,
            m_len == pow2(log_m as nat),
            forall|a: int| 0 <= a < ris@.len() ==> elems_wf((#[trigger] ris@[a])@, q, edim as nat),
            forall|a: int| 0 <= a < ris@.len() ==> (#[trigger] ris@[a])@.len() == log_m,
            i <= ris@.len(),
            mles@.len() == i,
            forall|a: int| 0 <= a < mles@.len() ==> (#[trigger] mles@[a]).wf()
                && mles@[a].q == q && mles@[a].edim == edim && mles@[a].num_vars == log_m,
            forall|a: int| 0 <= a < i ==> (#[trigger] mles@[a]).view_rows()
                == crate::mle::eq_table_s(q, edim as nat, ris@[a]@.map_values(|e: RqNtt| e.c@)),
        decreases ris@.len() - i,
    {
        let eqt = build_eq_table(q, edim, &ris[i]);
        mles.push(eqt);
        i = i + 1;
    }
    // flattened f_hat extensions: indices 2k + i*E + d
    let mut i2: usize = 0;
    while i2 < f_hat_mles.len()
        invariant
            q >= 2,
            forall|a: int, j: int| 0 <= a < f_hat_mles@.len() && 0 <= j < f_hat_mles@[a]@.len()
                ==> (#[trigger] f_hat_mles@[a]@[j]).wf()
                    && f_hat_mles@[a]@[j].q == q
                    && f_hat_mles@[a]@[j].edim == edim
                    && f_hat_mles@[a]@[j].num_vars == log_m,
            forall|a: int| 0 <= a < f_hat_mles@.len()
                ==> (#[trigger] f_hat_mles@[a])@.len() == e_cnt,
            i2 <= f_hat_mles@.len(),
            mles@.len() == ris@.len() + i2 * e_cnt,
            forall|a: int| 0 <= a < mles@.len() ==> (#[trigger] mles@[a]).wf()
                && mles@[a].q == q && mles@[a].edim == edim && mles@[a].num_vars == log_m,
            forall|a: int| 0 <= a < ris@.len() ==> (#[trigger] mles@[a]).view_rows()
                == crate::mle::eq_table_s(q, edim as nat, ris@[a]@.map_values(|e: RqNtt| e.c@)),
            forall|a: int, d: int| 0 <= a < i2 && 0 <= d < e_cnt
                ==> (#[trigger] mles@[ris@.len() + a * e_cnt + d]).view_rows()
                    == f_hat_mles@[a]@[d].view_rows(),
            mles@.len() + (f_hat_mles@.len() - i2) * e_cnt + 3 < usize::MAX,
        decreases f_hat_mles@.len() - i2,
    {
        proof {
            assert((f_hat_mles@.len() - i2) * e_cnt == e_cnt + (f_hat_mles@.len() - i2 - 1) * e_cnt)
                by (nonlinear_arith)
                requires i2 < f_hat_mles@.len(),
            ;
        }
        let fam = &f_hat_mles[i2];
        let mut j: usize = 0;
        while j < fam.len()
            invariant
                q >= 2,
                fam@ == f_hat_mles@[i2 as int]@,
                fam@.len() == e_cnt,
                i2 < f_hat_mles@.len(),
                forall|a: int, jj: int| 0 <= a < f_hat_mles@.len() && 0 <= jj < f_hat_mles@[a]@.len()
                    ==> (#[trigger] f_hat_mles@[a]@[jj]).wf()
                        && f_hat_mles@[a]@[jj].q == q
                        && f_hat_mles@[a]@[jj].edim == edim
                        && f_hat_mles@[a]@[jj].num_vars == log_m,
                j <= e_cnt,
                mles@.len() == ris@.len() + i2 * e_cnt + j,
                mles@.len() + (e_cnt - j) < usize::MAX,
                forall|a: int| 0 <= a < mles@.len() ==> (#[trigger] mles@[a]).wf()
                    && mles@[a].q == q && mles@[a].edim == edim && mles@[a].num_vars == log_m,
                forall|a: int| 0 <= a < ris@.len() ==> (#[trigger] mles@[a]).view_rows()
                    == crate::mle::eq_table_s(q, edim as nat, ris@[a]@.map_values(|e: RqNtt| e.c@)),
                forall|a: int, d: int| 0 <= a < i2 && 0 <= d < e_cnt
                    ==> (#[trigger] mles@[ris@.len() + a * e_cnt + d]).view_rows()
                        == f_hat_mles@[a]@[d].view_rows(),
                forall|d: int| 0 <= d < j
                    ==> (#[trigger] mles@[ris@.len() + i2 as int * e_cnt + d]).view_rows()
                        == f_hat_mles@[i2 as int]@[d].view_rows(),
            decreases e_cnt - j,
        {
            mles.push(fam[j].clone_mle());
            proof {
                assert forall|a: int, d: int| 0 <= a < i2 && 0 <= d < e_cnt implies
                    (#[trigger] mles@[ris@.len() + a * e_cnt + d]).view_rows()
                        == f_hat_mles@[a]@[d].view_rows() by {
                    vstd::arithmetic::mul::lemma_mul_inequality(a + 1, i2 as int, e_cnt as int);
                    assert((a + 1) * e_cnt == a * e_cnt + e_cnt) by (nonlinear_arith);
                }
            }
            j = j + 1;
        }
        proof {
            assert(ris@.len() + i2 * e_cnt + e_cnt == ris@.len() + (i2 + 1) * e_cnt) by (nonlinear_arith);
            assert forall|a: int, d: int| 0 <= a < i2 + 1 && 0 <= d < e_cnt implies
                (#[trigger] mles@[ris@.len() + a * e_cnt + d]).view_rows()
                    == f_hat_mles@[a]@[d].view_rows() by {
                vstd::arithmetic::mul::lemma_mul_inequality(a + 1, i2 as int + 1, e_cnt as int);
                assert((a + 1) * e_cnt == a * e_cnt + e_cnt) by (nonlinear_arith);
            }
            assert(mles@.len() + (f_hat_mles@.len() - (i2 + 1)) * e_cnt + 3 < usize::MAX) by (nonlinear_arith)
                requires mles@.len() == ris@.len() + (i2 + 1) as int * e_cnt
                    && ris@.len() as int + i2 as int * e_cnt + (f_hat_mles@.len() - i2) * e_cnt + 3 < usize::MAX
                    && i2 < f_hat_mles@.len()
                    && (f_hat_mles@.len() - i2) * e_cnt == e_cnt + (f_hat_mles@.len() - i2 - 1) * e_cnt,
            ;
        }
        i2 = i2 + 1;
    }
    let m1_idx = mles.len();
    mles.push(prechallenged_ms_1);
    let m2_idx = mles.len();
    mles.push(prechallenged_ms_2);
    // eq polynomial of the beta point
    let mut beta_elems: Vec<RqNtt> = Vec::new();
    let mut bi: usize = 0;
    while bi < beta_s.len()
        invariant
            q >= 2,
            seq_wf(q, beta_s@),
            bi <= beta_s@.len(),
            beta_elems@.len() == bi,
            forall|a: int| 0 <= a < bi ==> (#[trigger] beta_elems@[a]).wf()
                && beta_elems@[a].q == q && beta_elems@[a].dim() == edim as nat
                && beta_elems@[a].c@ == diag_s(edim as nat, beta_s@[a]),
        decreases beta_s@.len() - bi,
    {
        let e = RqNtt::from_u128(q, edim, beta_s[bi] as u128);
        proof {
            vstd::arithmetic::div_mod::lemma_small_mod(beta_s@[bi as int] as nat, q as nat);
        }
        beta_elems.push(e);
        bi = bi + 1;
    }
    let eq_beta = build_eq_table(q, edim, &beta_elems);
    let eqb_idx = mles.len();
    mles.push(eq_beta);

    let ghost total = mles@.len();
    let ghost mles_content = mles@.map_values(|m: DenseMultilinearExtension| m.view_rows());
    proof {
        assert(beta_elems@.map_values(|e: RqNtt| e.c@)
            =~= Seq::new(beta_s@.len(), |i: int| diag_s(edim as nat, beta_s@[i])));
        assert forall|a: int, d: int| 0 <= a < 2 * k && 0 <= d < e_cnt implies
            (#[trigger] mles@[2 * k + a * e_cnt + d]).view_rows()
                == f_hat_mles@[a]@[d].view_rows() by {
            vstd::arithmetic::mul::lemma_mul_inequality(a + 1, 2 * k as int, e_cnt as int);
            assert((a + 1) * e_cnt == a * e_cnt + e_cnt) by (nonlinear_arith);
        }
    }
    // products
    let ghost gp = g_products_s(q, edim as nat, k, e_cnt as nat, alpha_s@, mu_s@, b_small);
    let mut products: Vec<(RqNtt, Vec<(usize, u64)>)> = Vec::new();
    proof {
        assert(gp.len() == 2 * k * e_cnt + 2 + k * e_cnt);
        assert(crate::sumcheck::products_view(products@) =~= gp.subrange(0, 0));
    }
    // (a) alpha-combination: eq(r_i, X) * f_hat_{i,d}, coefficient alpha_i^{d+1}
    let mut ai: usize = 0;
    while ai < 2 * k
        invariant
            q >= 2,
            k >= 1,
            2 * k <= usize::MAX,
            e_cnt >= 1,
            b_small >= 1,
            (b_small as u64) < q,
            alpha_s@.len() == 2 * k,
            seq_wf(q, alpha_s@),
            ris@.len() == 2 * k,
            total == mles@.len(),
            total == 2 * k + 2 * k * e_cnt + 3,
            total < usize::MAX,
            m1_idx == 2 * k + 2 * k * e_cnt,
            eqb_idx == m1_idx + 2,
            forall|a: int| 0 <= a < mles@.len() ==> (#[trigger] mles@[a]).wf()
                && mles@[a].q == q && mles@[a].edim == edim && mles@[a].num_vars == log_m,
            mles_content == mles@.map_values(|m: DenseMultilinearExtension| m.view_rows()),
            gp == g_products_s(q, edim as nat, k, e_cnt as nat, alpha_s@, mu_s@, b_small),
            ai <= 2 * k,
            products@.len() == ai * e_cnt,
            crate::sumcheck::products_view(products@) == gp.subrange(0, products@.len() as int),
            forall|p: int| 0 <= p < products@.len() ==> (#[trigger] products@[p]).0.wf()
                && products@[p].0.q == q && products@[p].0.dim() == edim as nat,
            forall|p: int, j: int| 0 <= p < products@.len() && 0 <= j < products@[p].1@.len()
                ==> (#[trigger] products@[p].1@[j]).0 < total && products@[p].1@[j].1 < q,
        decreases 2 * k - ai,
    {
        let alpha = alpha_s[ai];
        let mut pw: u64 = 1 % q;
        proof {
            vstd::arithmetic::div_mod::lemma_small_mod(1nat, q as nat);
            vstd::arithmetic::mul::lemma_mul_inequality(ai as int + 1, 2 * k as int, e_cnt as int);
            assert((ai + 1) * e_cnt == ai * e_cnt + e_cnt) by (nonlinear_arith);
        }
        let mut d: usize = 0;
        while d < e_cnt
            invariant
                q >= 2,
                k >= 1,
                alpha == alpha_s@[ai as int],
                alpha < q,
                ai < 2 * k,
                2 * k <= usize::MAX,
                e_cnt >= 1,
                alpha_s@.len() == 2 * k,
                total == 2 * k + 2 * k * e_cnt + 3,
                total == mles@.len(),
                total < usize::MAX,
                forall|a: int| 0 <= a < mles@.len() ==> (#[trigger] mles@[a]).wf()
                    && mles@[a].q == q && mles@[a].edim == edim && mles@[a].num_vars == log_m,
                d <= e_cnt,
                pw == zq_pow(q, alpha, d as nat),
                pw < q,
                gp == g_products_s(q, edim as nat, k, e_cnt as nat, alpha_s@, mu_s@, b_small),
                products@.len() == ai * e_cnt + d,
                crate::sumcheck::products_view(products@) == gp.subrange(0, products@.len() as int),
                forall|p: int| 0 <= p < products@.len() ==> (#[trigger] products@[p]).0.wf()
                    && products@[p].0.q == q && products@[p].0.dim() == edim as nat,
                forall|p: int, j: int| 0 <= p < products@.len() && 0 <= j < products@[p].1@.len()
                    ==> (#[trigger] products@[p].1@[j]).0 < total && products@[p].1@[j].1 < q,
            decreases e_cnt - d,
        {
            pw = mul_mod(q, alpha, pw);
            let coeff = RqNtt::from_u128(q, edim, pw as u128);
            proof {
                vstd::arithmetic::div_mod::lemma_small_mod(pw as nat, q as nat);
                assert(ai * e_cnt + d < 2 * k * e_cnt) by (nonlinear_arith)
                    requires ai < 2 * k && d < e_cnt && 0 <= ai && 0 <= d,
                ;
            }
            let mut factors: Vec<(usize, u64)> = Vec::new();
            factors.push((ai, 0));
            factors.push((2 * k + ai * e_cnt + d, 0));
            products.push((coeff, factors));
            proof {
                let n = (ai * e_cnt + d) as int;
                vstd::arithmetic::div_mod::lemma_fundamental_div_mod_converse(
                    n, e_cnt as int, ai as int, d as int);
                assert(gp[n].0 == diag_s(edim as nat, zq_pow(q, alpha_s@[ai as int], (d + 1) as nat)));
                assert(gp[n].1 == seq![(ai, 0u64), (((2 * k + n) as usize), 0u64)]);
                assert(factors@ =~= gp[n].1);
                assert(crate::sumcheck::products_view(products@) =~= gp.subrange(0, n + 1));
            }
            d = d + 1;
        }
        ai = ai + 1;
    }
    // (b) the zeta-precombined constraint extensions against the group eq
    proof {
        vstd::arithmetic::mul::lemma_mul_is_commutative(2 * k as int, e_cnt as int);
    }
    let one = RqNtt::from_u128(q, edim, 1u128);
    proof {
        vstd::arithmetic::div_mod::lemma_small_mod(1nat, q as nat);
    }
    let mut fac1: Vec<(usize, u64)> = Vec::new();
    fac1.push((0, 0));
    fac1.push((m1_idx, 0));
    products.push((one, fac1));
    proof {
        let n = (2 * k * e_cnt) as int;
        assert(gp[n].0 == diag_s(edim as nat, 1u64));
        assert(gp[n].1 == seq![(0usize, 0u64), (((2 * k + 2 * k * e_cnt) as usize), 0u64)]);
        assert(fac1@ =~= gp[n].1);
        assert(crate::sumcheck::products_view(products@) =~= gp.subrange(0, n + 1));
    }
    let one2 = RqNtt::from_u128(q, edim, 1u128);
    proof {
        vstd::arithmetic::div_mod::lemma_small_mod(1nat, q as nat);
    }
    let mut fac2: Vec<(usize, u64)> = Vec::new();
    fac2.push((k, 0));
    fac2.push((m2_idx, 0));
    products.push((one2, fac2));
    proof {
        let n = (2 * k * e_cnt + 1) as int;
        assert(gp[n].0 == diag_s(edim as nat, 1u64));
        assert(gp[n].1 == seq![(k, 0u64), (((2 * k + 2 * k * e_cnt + 1) as usize), 0u64)]);
        assert(fac2@ =~= gp[n].1);
        assert(crate::sumcheck::products_view(products@) =~= gp.subrange(0, n + 1));
    }
    // (c) the beta-smashing norm term over the first K instances
    let mut kk: usize = 0;
    while kk < k
        invariant
            q >= 2,
            k >= 1,
            2 * k <= usize::MAX,
            e_cnt >= 1,
            mu_s@.len() == k,
            seq_wf(q, mu_s@),
            b_small >= 1,
            (b_small as u64) < q,
            total == mles@.len(),
            total == 2 * k + 2 * k * e_cnt + 3,
            total < usize::MAX,
            eqb_idx == 2 * k + 2 * k * e_cnt + 2,
            forall|a: int| 0 <= a < mles@.len() ==> (#[trigger] mles@[a]).wf()
                && mles@[a].q == q && mles@[a].edim == edim && mles@[a].num_vars == log_m,
            mles_content == mles@.map_values(|m: DenseMultilinearExtension| m.view_rows()),
            gp == g_products_s(q, edim as nat, k, e_cnt as nat, alpha_s@, mu_s@, b_small),
            kk <= k,
            products@.len() == 2 * k * e_cnt + 2 + kk * e_cnt,
            crate::sumcheck::products_view(products@) == gp.subrange(0, products@.len() as int),
            forall|p: int| 0 <= p < products@.len() ==> (#[trigger] products@[p]).0.wf()
                && products@[p].0.q == q && products@[p].0.dim() == edim as nat,
            forall|p: int, j: int| 0 <= p < products@.len() && 0 <= j < products@[p].1@.len()
                ==> (#[trigger] products@[p].1@[j]).0 < total && products@[p].1@[j].1 < q,
        decreases k - kk,
    {
        let mu = mu_s[kk];
        let mut pw: u64 = 1 % q;
        proof {
            vstd::arithmetic::div_mod::lemma_small_mod(1nat, q as nat);
            vstd::arithmetic::mul::lemma_mul_inequality(kk as int + 1, k as int, e_cnt as int);
            assert((kk + 1) * e_cnt == kk * e_cnt + e_cnt) by (nonlinear_arith);
        }
        let mut d: usize = 0;
        while d < e_cnt
            invariant
                q >= 2,
                k >= 1,
                mu == mu_s@[kk as int],
                mu < q,
                kk < k,
                2 * k <= usize::MAX,
                e_cnt >= 1,
                mu_s@.len() == k,
                b_small >= 1,
                (b_small as u64) < q,
                total == mles@.len(),
                total == 2 * k + 2 * k * e_cnt + 3,
                total < usize::MAX,
                eqb_idx == 2 * k + 2 * k * e_cnt + 2,
                forall|a: int| 0 <= a < mles@.len() ==> (#[trigger] mles@[a]).wf()
                    && mles@[a].q == q && mles@[a].edim == edim && mles@[a].num_vars == log_m,
                d <= e_cnt,
                pw == zq_pow(q, mu, d as nat),
                pw < q,
                gp == g_products_s(q, edim as nat, k, e_cnt as nat, alpha_s@, mu_s@, b_small),
                products@.len() == 2 * k * e_cnt + 2 + kk * e_cnt + d,
                crate::sumcheck::products_view(products@) == gp.subrange(0, products@.len() as int),
                forall|p: int| 0 <= p < products@.len() ==> (#[trigger] products@[p]).0.wf()
                    && products@[p].0.q == q && products@[p].0.dim() == edim as nat,
                forall|p: int, j: int| 0 <= p < products@.len() && 0 <= j < products@[p].1@.len()
                    ==> (#[trigger] products@[p].1@[j]).0 < total && products@[p].1@[j].1 < q,
            decreases e_cnt - d,
        {
            pw = mul_mod(q, mu, pw);
            let coeff = RqNtt::from_u128(q, edim, pw as u128);
            proof {
                vstd::arithmetic::div_mod::lemma_small_mod(pw as nat, q as nat);
                assert(kk * e_cnt + d < 2 * k * e_cnt) by (nonlinear_arith)
                    requires kk < k && d < e_cnt && 0 <= kk && 0 <= d && k >= 1,
                ;
            }
            let fidx = 2 * k + kk * e_cnt + d;
            let mut factors: Vec<(usize, u64)> = Vec::new();
            factors.push((eqb_idx, 0));
            factors.push((fidx, 0));
            proof {
                assert(factors@ =~= norm_factors_s(eqb_idx, fidx, 1, q));
            }
            let mut b: usize = 1;
            while b < b_small
                invariant
                    q >= 2,
                    1 <= b <= b_small,
                    (b_small as u64) < q,
                    fidx < total,
                    eqb_idx < total,
                    factors@ == norm_factors_s(eqb_idx, fidx, b as int, q),
                    forall|j: int| 0 <= j < factors@.len()
                        ==> (#[trigger] factors@[j]).0 < total && factors@[j].1 < q,
                decreases b_small - b,
            {
                factors.push((fidx, b as u64));
                factors.push((fidx, q - b as u64));
                proof {
                    assert(factors@ =~= norm_factors_s(eqb_idx, fidx, b + 1, q));
                }
                b = b + 1;
            }
            products.push((coeff, factors));
            proof {
                let p = (kk * e_cnt + d) as int;
                let n = (2 * k * e_cnt + 2) as int + p;
                assert(p < k * e_cnt) by (nonlinear_arith)
                    requires kk < k && d < e_cnt && 0 <= kk && 0 <= d
                        && p == kk as int * e_cnt as int + d,
                ;
                vstd::arithmetic::div_mod::lemma_fundamental_div_mod_converse(
                    p, e_cnt as int, kk as int, d as int);
                assert(gp[n].0 == diag_s(edim as nat, zq_pow(q, mu_s@[kk as int], (d + 1) as nat)));
                assert(gp[n].1 == norm_factors_s(((2 * k + 2 * k * e_cnt + 2) as usize),
                    ((2 * k + p) as usize), b_small as int, q));
                assert(crate::sumcheck::products_view(products@) =~= gp.subrange(0, n + 1));
            }
            d = d + 1;
        }
        kk = kk + 1;
    }
    proof {
        assert(crate::sumcheck::products_view(products@) =~= gp);
        assert forall|a: int| 0 <= a < mles@.len() implies
            (#[trigger] mles@[a]).view_rows() == mles_content[a] by {
            assert(mles_content[a]
                == mles@.map_values(|m: DenseMultilinearExtension| m.view_rows())[a]);
        }
        assert forall|a: int, d: int| 0 <= a < 2 * k && 0 <= d < e_cnt implies
            (#[trigger] mles@[2 * k + a * e_cnt + d]).view_rows()
                == f_hat_mles@[a]@[d].view_rows() by {
            vstd::arithmetic::mul::lemma_mul_inequality(a + 1, 2 * k as int, e_cnt as int);
            assert((a + 1) * e_cnt == a * e_cnt + e_cnt) by (nonlinear_arith);
            assert(mles@[2 * k + a * e_cnt + d].view_rows()
                == mles_content[2 * k + a * e_cnt + d]);
        }
        // the factor list as one piecewise expression
        let gt = g_tables_s(q, edim as nat, k, e_cnt as nat,
            ris@.map_values(|r: Vec<RqNtt>| elems_view(r@)),
            f_hat_mles@.map_values(|fam: Vec<DenseMultilinearExtension>| mle_family_view(fam@)),
            mles@[m1_idx as int].view_rows(), mles@[m2_idx as int].view_rows(), beta_s@);
        assert forall|a: int| 0 <= a < mles@.len() implies
            crate::sumcheck::tables_view(mles@)[a] == gt[a] by {
            if 2 * k <= a < 2 * k + 2 * k * e_cnt {
                let off = a - 2 * k;
                vstd::arithmetic::div_mod::lemma_fundamental_div_mod(off, e_cnt as int);
                vstd::arithmetic::div_mod::lemma_mod_bound(off, e_cnt as int);
                vstd::arithmetic::div_mod::lemma_multiply_divide_lt(off, e_cnt as int, 2 * k as int);
                let i = off / e_cnt as int;
                let d = off % e_cnt as int;
                assert(a == 2 * k + i * e_cnt + d);
                assert(mles@[2 * k + i * e_cnt + d].view_rows() == f_hat_mles@[i]@[d].view_rows());
                assert(gt[a] == f_hat_mles@.map_values(
                    |fam: Vec<DenseMultilinearExtension>| mle_family_view(fam@))[i][d]);
            }
        }
        assert(crate::sumcheck::tables_view(mles@) =~= gt);
    }
    VirtualPolynomial {
        q,
        edim,
        num_vars: log_m,
        degree: 2 * b_small,
        products,
        mles,
    }
}

/// Well-formedness of the inputs shared by the folding prover and
/// verifier: `2K` instances of matching shape over the ring.
pub open spec fn fold_inputs_wf(params: RingParams, dp: DecompositionParams, ccs: CCS, cm_i_s: Seq<LCCCS>) -> bool {
    &&& params.wf()
    &&& dp.k >= 1
    &&& dp.b_small >= 1
    &&& (dp.b_small as u64) < params.q
    &&& 2 * dp.b_small + 1 < usize::MAX
    &&& 2 * dp.k + 2 * dp.k * params.d + 3 < usize::MAX
    &&& params.inv@.len() > 2 * dp.b_small
    &&& ccs.wf()
    &&& ccs.t >= 1
    &&& forall|i: int| 0 <= i < cm_i_s.len() ==> (#[trigger] cm_i_s[i]).wf(params.q, params.e as nat)
    &&& forall|i: int| 0 <= i < cm_i_s.len() ==> (#[trigger] cm_i_s[i]).r@.len() == ccs.s
    &&& forall|i: int| 0 <= i < cm_i_s.len() ==> (#[trigger] cm_i_s[i]).cm.cm@.len() == cm_i_s[0].cm.cm@.len()
    &&& forall|i: int| 0 <= i < cm_i_s.len() ==> (#[trigger] cm_i_s[i]).x_w@.len() == cm_i_s[0].x_w@.len()
    &&& cm_i_s.len() >= 1 ==> cm_i_s[0].x_w@.len() + 1 < usize::MAX
}

/// The existential tie between the short challenges, the claimed
/// evaluations, and the recombined instance: there is a sponge state
/// from which the `K` short challenges `rho` were squeezed, such that
/// every field of the output is the `rho`-linear combination the
/// protocol prescribes, and the transcript ends right after them.
pub open spec fn fold_output_tied(params: RingParams, dp: DecompositionParams, cm_i_s: Seq<LCCCS>, lcccs: LCCCS, theta_s: Seq<Vec<RqNtt>>, eta_s: Seq<Vec<RqNtt>>, st_mid: u64, t_final: FsTranscript) -> bool {
    {
        let q = params.q;
        let edim = params.e as nat;
        let rho_cr = small_challenges_seq_s(q, st_mid, params.d as nat, dp.k as nat);
        let rhos = rho_cr.map_values(|c: Seq<u64>| crt_s(params, c));
        let thetas = eval_rows_view(theta_s);
        let etas = eval_rows_view(eta_s);
        let xs = cm_i_s.map_values(|c: LCCCS| elems_view(c.x_w@).push(c.h.c@));
        &&& small_challenges_state_s(q, st_mid, params.d as nat, dp.k as nat) == t_final.state
        &&& elems_view(lcccs.v@) == lincomb_s(q, edim, theta_s[0]@.len(), rhos, thetas, dp.k as int)
        &&& elems_view(lcccs.cm.cm@) == lincomb_s(q, edim, cm_i_s[0].cm.cm@.len(), rhos,
                cm_i_s.map_values(|c: LCCCS| elems_view(c.cm.cm@)), dp.k as int)
        &&& elems_view(lcccs.u@) == lincomb_s(q, edim, eta_s[0]@.len(), rhos, etas, dp.k as int)
        &&& elems_view(lcccs.x_w@).push(lcccs.h.c@)
                == lincomb_s(q, edim, cm_i_s[0].x_w@.len() + 1, rhos, xs, dp.k as int)
    }
}


/// Sponge state after absorbing a matrix of evaluations row by row.
pub open spec fn absorb_rows_s(q: u64, st: u64, rows: Seq<Seq<Seq<u64>>>) -> u64
    decreases rows.len(),
{
    if rows.len() == 0 {
        st
    } else {
        absorb_rows_s(q, crate::transcript::absorb_elems_s(q, st, rows[0]),
            rows.subrange(1, rows.len() as int))
    }
}

/// Peeling one row off the end of a row-by-row absorption.
proof fn lemma_absorb_rows_snoc(q: u64, st: u64, rows: Seq<Seq<Seq<u64>>>, i: int)
    requires
        0 <= i < rows.len(),
    ensures
        absorb_rows_s(q, st, rows.subrange(0, i + 1))
            == crate::transcript::absorb_elems_s(q, absorb_rows_s(q, st, rows.subrange(0, i)), rows[i]),
    decreases i,
{
    if i == 0 {
        assert(rows.subrange(0, 0) =~= Seq::<Seq<Seq<u64>>>::empty());
        let s1 = rows.subrange(0, 1);
        assert(s1.subrange(1, 1) =~= Seq::<Seq<Seq<u64>>>::empty());
        assert(absorb_rows_s(q, st, s1)
            == absorb_rows_s(q, crate::transcript::absorb_elems_s(q, st, s1[0]), s1.subrange(1, 1)));
    } else {
        lemma_absorb_rows_snoc(q, crate::transcript::absorb_elems_s(q, st, rows[0]),
            rows.subrange(1, rows.len() as int), i - 1);
        let tail = rows.subrange(1, rows.len() as int);
        assert(rows.subrange(0, i + 1).subrange(1, i + 1) =~= tail.subrange(0, i));
        assert(rows.subrange(0, i).subrange(1, i) =~= tail.subrange(0, i - 1));
        assert(rows.subrange(0, i + 1)[0] == rows[0]);
        assert(rows.subrange(0, i)[0] == rows[0]);
        assert(tail.subrange(0, i)[i - 1] == rows[i]);
    }
}

/// The sponge state after the four challenge draws of the tuple
/// `(alpha, beta, zeta, mu)`.
pub open spec fn abzm_state_s(q: u64, st: u64, k: nat, log_m: nat) -> u64 {
    challenges_state_s(q,
        challenges_state_s(q,
            challenges_state_s(q,
                challenges_state_s(q, st, 2 * k), log_m), 2 * k), k)
}

/// The four challenge vectors of the tuple, in draw order.
pub open spec fn abzm_alpha_s(q: u64, st: u64, k: nat, log_m: nat) -> Seq<u64> {
    challenges_seq_s(q, st, 2 * k)
}

pub open spec fn abzm_beta_s(q: u64, st: u64, k: nat, log_m: nat) -> Seq<u64> {
    challenges_seq_s(q, challenges_state_s(q, st, 2 * k), log_m)
}

pub open spec fn abzm_zeta_s(q: u64, st: u64, k: nat, log_m: nat) -> Seq<u64> {
    challenges_seq_s(q, challenges_state_s(q, challenges_state_s(q, st, 2 * k), log_m), 2 * k)
}

pub open spec fn abzm_mu_s(q: u64, st: u64, k: nat, log_m: nat) -> Seq<u64> {
    challenges_seq_s(q,
        challenges_state_s(q,
            challenges_state_s(q,
                challenges_state_s(q, st, 2 * k), log_m), 2 * k), k)
}


/// The two claims of the folding sumcheck, recomputed from the
/// instances under the challenge tuple drawn from state `st0`, summed.
pub open spec fn folding_total_claim_s(params: RingParams, dp: DecompositionParams, ccs: CCS, cm_i_s: Seq<LCCCS>, st0: u64) -> Seq<u64> {
    let q = params.q;
    let edim = params.e as nat;
    let alpha = abzm_alpha_s(q, st0, dp.k as nat, ccs.s as nat);
    let zeta = abzm_zeta_s(q, st0, dp.k as nat, ccs.s as nat);
    ntt_add_s(q,
        claim_sum_s(q, edim, alpha, cm_i_s.map_values(|c: LCCCS| elems_view(c.v@)), cm_i_s.len() as int),
        claim_sum_s(q, edim, zeta, cm_i_s.map_values(|c: LCCCS| elems_view(c.u@)), cm_i_s.len() as int))
}

/// The sponge state the folding sumcheck starts from: the state after
/// the challenge tuple, then the absorption of `nvars` and `degree`.
pub open spec fn folding_sc_state_s(params: RingParams, dp: DecompositionParams, ccs: CCS, st0: u64) -> u64 {
    crate::sumcheck::init_state_s(params.q, params.e as nat,
        abzm_state_s(params.q, st0, dp.k as nat, ccs.s as nat),
        ccs.s as nat, (2 * dp.b_small) as nat)
}

/// The verifier's walk over the folding sumcheck proof.
pub open spec fn folding_chain_s(params: RingParams, dp: DecompositionParams, ccs: CCS, cm_i_s: Seq<LCCCS>, proof: FoldingProof, st0: u64) -> (Seq<Seq<u64>>, Seq<u64>, u64) {
    crate::sumcheck::verify_chain_s(params.q, params.e as nat, params.inv@,
        crate::sumcheck::proof_view(&proof.pointshift_sumcheck_proof),
        folding_sc_state_s(params, dp, ccs, st0),
        folding_total_claim_s(params, dp, ccs, cm_i_s, st0))
}

/// The sponge state right before the short challenges: the sumcheck's
/// final state after absorbing the theta rows and then the eta rows.
pub open spec fn folding_st_mid_s(params: RingParams, dp: DecompositionParams, ccs: CCS, cm_i_s: Seq<LCCCS>, proof: FoldingProof, st0: u64) -> u64 {
    absorb_rows_s(params.q,
        absorb_rows_s(params.q,
            folding_chain_s(params, dp, ccs, cm_i_s, proof, st0).2,
            eval_rows_view(proof.theta_s@)),
        eval_rows_view(proof.eta_s@))
}

/// Exactly when the folding verifier accepts: the CCS shape bound holds,
/// there are `2K` instances, every sumcheck round check passes against
/// the claims recomputed from the instances, and the claimed evaluations
/// match the expected final evaluation at the sumcheck point.
pub open spec fn folding_verifier_accepts(params: RingParams, dp: DecompositionParams, ccs: CCS, cm_i_s: Seq<LCCCS>, proof: FoldingProof, st0: u64) -> bool {
    let q = params.q;
    let edim = params.e as nat;
    let k = dp.k as nat;
    let s = ccs.s as nat;
    let bs = dp.b_small as nat;
    let alpha = abzm_alpha_s(q, st0, k, s);
    let beta = abzm_beta_s(q, st0, k, s);
    let zeta = abzm_zeta_s(q, st0, k, s);
    let mu = abzm_mu_s(q, st0, k, s);
    let pv = crate::sumcheck::proof_view(&proof.pointshift_sumcheck_proof);
    let chain = folding_chain_s(params, dp, ccs, cm_i_s, proof, st0);
    &&& ccs.m >= (ccs.n - ccs.l - 1) * dp.l
    &&& is_pow2_s(ccs.m as nat)
    &&& cm_i_s.len() == 2 * dp.k
    &&& pv.len() == ccs.s
    &&& crate::sumcheck::verify_checks_s(q, edim, params.inv@, pv,
            folding_sc_state_s(params, dp, ccs, st0),
            folding_total_claim_s(params, dp, ccs, cm_i_s, st0), (2 * dp.b_small) as nat)
    &&& expected_eval_s(q, edim, alpha, mu, eval_rows_view(proof.theta_s@),
            eq_eval_s(q, beta_diag_s(edim, beta), chain.0, edim),
            Seq::new(cm_i_s.len(), |i: int| eq_eval_s(q, elems_view(cm_i_s[i].r@), chain.0, edim)),
            zeta, eval_rows_view(proof.eta_s@), dp.k as int, bs)
        == chain.1
}


/// The witness extensions of the provers' inputs, as view tables.
pub open spec fn witness_fhat_views_s(w_s: Seq<Witness>) -> Seq<Seq<Seq<Seq<u64>>>> {
    w_s.map_values(|w: Witness| mle_family_view(w.f_hat->0@))
}

/// The prover's sumcheck run: the messages, challenges and final sponge
/// state of running the composite polynomial built from the instances,
/// the witness extensions and the constraint extensions, starting right
/// after the challenge tuple.
pub open spec fn folding_prover_chain_s(params: RingParams, dp: DecompositionParams, ccs: CCS, cm_i_s: Seq<LCCCS>, fhats: Seq<Seq<Seq<Seq<u64>>>>, mz: Seq<Seq<Seq<Seq<u64>>>>, st0: u64) -> (Seq<Seq<Seq<u64>>>, Seq<u64>, u64) {
    let q = params.q;
    let edim = params.e as nat;
    let k = dp.k as nat;
    let s = ccs.s as nat;
    let m_len = pow2(s);
    let zeta = abzm_zeta_s(q, st0, k, s);
    crate::sumcheck::prove_chain_s(q, edim,
        g_products_s(q, edim, dp.k, params.d as nat,
            abzm_alpha_s(q, st0, k, s), abzm_mu_s(q, st0, k, s), dp.b_small),
        g_tables_s(q, edim, dp.k, params.d as nat,
            cm_i_s.map_values(|c: LCCCS| elems_view(c.r@)),
            fhats,
            challenged_mz_s(q, edim, m_len, mz.subrange(0, dp.k as int),
                zeta.subrange(0, dp.k as int), dp.k as int),
            challenged_mz_s(q, edim, m_len, mz.subrange(dp.k as int, 2 * dp.k as int),
                zeta.subrange(dp.k as int, 2 * dp.k as int), dp.k as int),
            abzm_beta_s(q, st0, k, s)),
        folding_sc_state_s(params, dp, ccs, st0),
        s, (2 * dp.b_small) as nat, pow2(s) as int / 2)
}

/// The folding prover.
pub struct LFFoldingProver;

/// The folding verifier.
pub struct LFFoldingVerifier;

impl LFFoldingProver {
    /// Fold `2K` linearized instances with their witnesses into one.
    ///
    /// Squeezes `(alpha, beta, zeta, mu)`, runs the sumcheck on the
    /// composite polynomial, evaluates and absorbs `theta` and `eta`,
    /// squeezes the short challenges `rho`, and recombines.
    #[verifier::rlimit(60)]
    pub fn prove(params: &RingParams, dp: &DecompositionParams, ccs: &CCS, cm_i_s: &Vec<LCCCS>, w_s: Vec<Witness>, transcript: &mut FsTranscript, mz_mles: &Vec<Vec<DenseMultilinearExtension>>) -> (res: Result<(LCCCS, Witness, FoldingProof), FoldingError>)
        requires
            old(transcript).wf_spec(),
            old(transcript).q == params.q,
            old(transcript).edim == params.e,
            old(transcript).cdim == params.d,
            fold_inputs_wf(*params, *dp, *ccs, cm_i_s@),
            w_s@.len() == cm_i_s@.len(),
            forall|i: int| 0 <= i < w_s@.len()
                ==> (#[trigger] w_s@[i]).wf(params.q, params.e as nat, ccs.s as nat),
            forall|i: int| 0 <= i < w_s@.len() ==> (#[trigger] w_s@[i]).f_hat is Some,
            forall|i: int| 0 <= i < w_s@.len() ==> (#[trigger] w_s@[i]).f_hat->0@.len() == params.d,
            mz_mles@.len() == cm_i_s@.len(),
            mz_mles_wf(mz_mles@, params.q, params.e as nat, ccs.s as nat),
            forall|i: int| 0 <= i < mz_mles@.len() ==> (#[trigger] mz_mles@[i])@.len() == ccs.t,
        ensures
            final(transcript).wf_spec(),
            final(transcript).q == old(transcript).q,
            final(transcript).edim == old(transcript).edim,
            final(transcript).cdim == old(transcript).cdim,
            res is Ok <==> (ccs.m >= (ccs.n - ccs.l - 1) * dp.l && is_pow2_s(ccs.m as nat)
                && cm_i_s@.len() == 2 * dp.k),
            res matches Ok(out) ==> ({
                let q = params.q;
                let edim = params.e as nat;
                let chain = folding_prover_chain_s(*params, *dp, *ccs, cm_i_s@,
                    witness_fhat_views_s(w_s@),
                    mz_mles@.map_values(|v: Vec<DenseMultilinearExtension>| mle_family_view(v@)),
                    old(transcript).state);
                let r0pts = Seq::new(ccs.s as nat, |i: int| diag_s(edim, chain.1[i]));
                let st_mid = absorb_rows_s(q,
                    absorb_rows_s(q, chain.2, eval_rows_view(out.2.theta_s@)),
                    eval_rows_view(out.2.eta_s@));
                &&& out.0.wf(q, edim)
                &&& out.0.r@.len() == ccs.s
                &&& out.1.wf(q, edim, ccs.s as nat)
                &&& out.2.wf(q, edim)
                &&& out.2.theta_s@.len() == cm_i_s@.len()
                &&& out.2.eta_s@.len() == cm_i_s@.len()
                &&& cm_i_s@.len() == 2 * dp.k
                // the emitted sumcheck proof is the honest run on the
                // composite polynomial, and the point is its randomness
                &&& crate::sumcheck::proof_view(&out.2.pointshift_sumcheck_proof) == chain.0
                &&& elems_view(out.0.r@) == r0pts
                // the claimed evaluations are the true extension values
                // at the sumcheck point
                &&& forall|i: int, d: int| 0 <= i < cm_i_s@.len() && 0 <= d < params.d
                    ==> (#[trigger] out.2.theta_s@[i]@[d]).c@
                        == eval_mle_s(q, witness_fhat_views_s(w_s@)[i][d], r0pts)
                &&& forall|i: int, j: int| 0 <= i < cm_i_s@.len() && 0 <= j < ccs.t
                    ==> (#[trigger] out.2.eta_s@[i]@[j]).c@
                        == eval_mle_s(q, mz_mles@[i]@[j].view_rows(), r0pts)
                &&& forall|i: int| 0 <= i < cm_i_s@.len()
                    ==> (#[trigger] out.2.theta_s@[i])@.len() == params.d
                &&& forall|i: int| 0 <= i < cm_i_s@.len()
                    ==> (#[trigger] out.2.eta_s@[i])@.len() == ccs.t
                &&& fold_output_tied(*params, *dp, cm_i_s@, out.0, out.2.theta_s@, out.2.eta_s@, st_mid, *final(transcript))
                &&& final(transcript).state == small_challenges_state_s(q, st_mid, params.d as nat, dp.k as nat)
            }),
    {
        let q = params.q;
        let edim = params.e;
        let ghost st0 = old(transcript).state;
        match sanity_check(ccs, dp) {
            Err(e) => {
                return Err(e);
            },
            Ok(()) => {},
        }
        if cm_i_s.len() != 2 * dp.k {
            return Err(FoldingError::IncorrectLength);
        }
        let log_m = ccs.s;

        // Step 1: the challenge tuple.
        let (alpha_s, beta_s, zeta_s, mu_s) = squeeze_alpha_beta_zeta_mu(transcript, dp, log_m);
        proof {
            assert(alpha_s@ == abzm_alpha_s(q, st0, dp.k as nat, ccs.s as nat));
            assert(beta_s@ == abzm_beta_s(q, st0, dp.k as nat, ccs.s as nat));
            assert(zeta_s@ == abzm_zeta_s(q, st0, dp.k as nat, ccs.s as nat));
            assert(mu_s@ == abzm_mu_s(q, st0, dp.k as nat, ccs.s as nat));
            assert(transcript.state == abzm_state_s(q, st0, dp.k as nat, ccs.s as nat));
        }

        // Step 2: materialize the f_hat extensions and the composite polynomial.
        let (f_hat_mles, fs) = split_witnesses(w_s);
        let ris = get_ris(cm_i_s, q, edim);
        let m_len = cm_i_s[0].cm.cm.len();
        let first = &mz_mles[0];
        proof {
            assert(mz_mles@[0]@[0].wf());
        }
        let m_table = first[0].evals.len();
        proof {
            assert(m_table == pow2(log_m as nat));
        }
        let m1 = calculate_challenged_mz_mle(q, edim, log_m, m_table, mz_mles, &zeta_s, 0, dp.k);
        let m2 = calculate_challenged_mz_mle(q, edim, log_m, m_table, mz_mles, &zeta_s, dp.k, 2 * dp.k);
        proof {
            assert(forall|i: int| 0 <= i < f_hat_mles@.len()
                ==> (#[trigger] f_hat_mles@[i])@ == w_s@[i].f_hat->0@);
            assert(f_hat_mles@[0]@.len() == params.d);
            assert forall|i: int| 0 <= i < f_hat_mles@.len()
                implies (#[trigger] f_hat_mles@[i])@.len() == f_hat_mles@[0]@.len() by {
                assert(f_hat_mles@[i]@ == w_s@[i].f_hat->0@);
            };
        }
        let ghost m1v = m1.view_rows();
        let ghost m2v = m2.view_rows();
        let g = create_sumcheck_polynomial(q, edim, log_m, m_table, &f_hat_mles, &alpha_s, m1, m2, &ris, &beta_s, &mu_s, dp);
        let ghost pchain = folding_prover_chain_s(*params, *dp, *ccs, cm_i_s@,
            witness_fhat_views_s(w_s@),
            mz_mles@.map_values(|v: Vec<DenseMultilinearExtension>| mle_family_view(v@)),
            st0);
        proof {
            // the factor tables of g are exactly those of the spec chain
            let fhats = witness_fhat_views_s(w_s@);
            assert forall|i: int| 0 <= i < f_hat_mles@.len() implies
                #[trigger] mle_family_view(f_hat_mles@[i]@) == fhats[i] by {
                assert(f_hat_mles@[i]@ == w_s@[i].f_hat->0@);
            };
            assert(f_hat_mles@.map_values(|fam: Vec<DenseMultilinearExtension>| mle_family_view(fam@))
                =~= fhats);
            assert(ris@.map_values(|r: Vec<RqNtt>| elems_view(r@))
                =~= cm_i_s@.map_values(|c: LCCCS| elems_view(c.r@)));
            let mz = mz_mles@.map_values(|v: Vec<DenseMultilinearExtension>| mle_family_view(v@));
            assert(mz_mles@.map_values(|v: Vec<DenseMultilinearExtension>| mle_family_view(v@))
                .subrange(0, dp.k as int)
                =~= mz.subrange(0, dp.k as int));
            assert(crate::sumcheck::tables_view(g.mles@) == g_tables_s(q, edim as nat, dp.k,
                params.d as nat,
                cm_i_s@.map_values(|c: LCCCS| elems_view(c.r@)),
                fhats, m1v, m2v, beta_s@));
        }

        // Step 3: the sumcheck.
        let (sum_check_proof, prover_state) = MLSumcheck::prove_as_subprotocol(transcript, &g);
        let r_0 = get_sumcheck_randomness(q, edim, &prover_state);
        proof {
            assert(crate::sumcheck::proof_view(&sum_check_proof) == pchain.0);
            assert(prover_state.randomness@ == pchain.1);
            assert(transcript.state == pchain.2);
            assert(elems_view(r_0@) =~= Seq::new(ccs.s as nat, |i: int| diag_s(edim as nat, pchain.1[i])));
        }

        // Step 4: evaluate theta and eta at the sumcheck point.
        proof {
            assert(r_0@.len() == g.num_vars);
        }
        let theta_s = eval_rows(q, edim, &f_hat_mles, &r_0);
        let eta_s = eval_rows(q, edim, mz_mles, &r_0);
        proof {
            let r0pts = Seq::new(ccs.s as nat, |i: int| diag_s(edim as nat, pchain.1[i]));
            assert(r_0@.map_values(|e: RqNtt| e.c@) =~= r0pts);
            assert forall|i: int, d: int| 0 <= i < cm_i_s@.len() && 0 <= d < params.d implies
                (#[trigger] theta_s@[i]@[d]).c@
                    == eval_mle_s(q, witness_fhat_views_s(w_s@)[i][d], r0pts) by {
                assert(f_hat_mles@[i]@ == w_s@[i].f_hat->0@);
                assert(f_hat_mles@[i]@[d].view_rows() == witness_fhat_views_s(w_s@)[i][d]);
            };
        }

        // Step 5: absorb theta then eta.
        let ghost st_theta0 = transcript.state;
        let mut ti: usize = 0;
        while ti < theta_s.len()
            invariant
                transcript.wf_spec(),
                transcript.q == q,
                transcript.edim == edim,
                transcript.cdim == old(transcript).cdim,
                eval_rows_wf(theta_s@, q, edim as nat),
                ti <= theta_s@.len(),
                transcript.state == absorb_rows_s(q, st_theta0,
                    eval_rows_view(theta_s@).subrange(0, ti as int)),
            decreases theta_s@.len() - ti,
        {
            proof {
                lemma_absorb_rows_snoc(q, st_theta0, eval_rows_view(theta_s@), ti as int);
            }
            transcript.absorb_elems_inner(&theta_s[ti]);
            proof {
                assert(theta_s@[ti as int]@.map_values(|e: RqNtt| e.c@)
                    == eval_rows_view(theta_s@)[ti as int]);
            }
            ti = ti + 1;
        }
        proof {
            let tv = eval_rows_view(theta_s@);
            assert(tv.subrange(0, tv.len() as int) =~= tv);
        }
        let ghost st_eta0 = transcript.state;
        let mut ei: usize = 0;
        while ei < eta_s.len()
            invariant
                transcript.wf_spec(),
                transcript.q == q,
                transcript.edim == edim,
                transcript.cdim == old(transcript).cdim,
                eval_rows_wf(eta_s@, q, edim as nat),
                ei <= eta_s@.len(),
                transcript.state == absorb_rows_s(q, st_eta0,
                    eval_rows_view(eta_s@).subrange(0, ei as int)),
            decreases eta_s@.len() - ei,
        {
            proof {
                lemma_absorb_rows_snoc(q, st_eta0, eval_rows_view(eta_s@), ei as int);
            }
            transcript.absorb_elems_inner(&eta_s[ei]);
            proof {
                assert(eta_s@[ei as int]@.map_values(|e: RqNtt| e.c@)
                    == eval_rows_view(eta_s@)[ei as int]);
            }
            ei = ei + 1;
        }
        proof {
            let ev = eval_rows_view(eta_s@);
            assert(ev.subrange(0, ev.len() as int) =~= ev);
        }

        // Step 6: the short challenges.
        let ghost st_mid = transcript.state;
        proof {
            assert(st_mid == absorb_rows_s(q,
                absorb_rows_s(q, pchain.2, eval_rows_view(theta_s@)),
                eval_rows_view(eta_s@)));
        }
        let rho_s = get_rhos(transcript, dp);

        // Step 7: recombine.
        let (v_0, cm_0, u_0, x_0) = compute_v0_u0_x0_cm_0(params, &rho_s, &theta_s, cm_i_s, &eta_s);
        if x_0.len() == 0 {
            return Err(FoldingError::IncorrectLength);
        }
        let h = x_0[x_0.len() - 1].clone_elem();
        let ghost x0v = elems_view(x_0@);
        let lcccs = prepare_public_output(r_0, v_0, cm_0, u_0, x_0, h);

        let f_0 = compute_f_0(params, &rho_s, &fs);
        proof {
            assert(fs@[0]@ == w_s@[0].f@);
            assert(fs@[0]@.len() == pow2(ccs.s as nat));
            vstd::arithmetic::power2::lemma_pow2_pos(ccs.s as nat);
        }
        let w_0 = Witness::from_f(params, ccs.s, f_0);

        let folding_proof = FoldingProof {
            pointshift_sumcheck_proof: sum_check_proof,
            theta_s,
            eta_s,
        };
        proof {
            assert(elems_view(lcccs.x_w@).push(lcccs.h.c@) =~= x0v);
            assert(small_challenges_state_s(q, st_mid, params.d as nat, dp.k as nat)
                == transcript.state);
            assert(rho_s@.map_values(|e: RqCoeff| e.c@)
                == small_challenges_seq_s(q, st_mid, params.d as nat, dp.k as nat));
            assert(rho_s@.map_values(|c: RqCoeff| crt_s(*params, c.c@))
                =~= small_challenges_seq_s(q, st_mid, params.d as nat, dp.k as nat)
                    .map_values(|c: Seq<u64>| crt_s(*params, c)));
            assert(fold_output_tied(*params, *dp, cm_i_s@, lcccs, folding_proof.theta_s@, folding_proof.eta_s@, st_mid, *transcript));
        }
        Ok((lcccs, w_0, folding_proof))
    }
}

impl LFFoldingVerifier {
    /// Verify the sumcheck subproof and return the challenge point and
    /// the expected final evaluation.
    pub fn verify_sumcheck_proof(transcript: &mut FsTranscript, inv: &Vec<u64>, poly_info: &VPAuxInfo, total_claim: &RqNtt, proof: &FoldingProof) -> (res: Result<(Vec<RqNtt>, RqNtt), FoldingError>)
        requires
            old(transcript).wf_spec(),
            total_claim.wf(),
            total_claim.q == old(transcript).q,
            total_claim.dim() == old(transcript).edim as nat,
            crate::sumcheck::proof_wf(&proof.pointshift_sumcheck_proof, old(transcript).q, old(transcript).edim as nat),
            inv@.len() > poly_info.max_degree,
            seq_wf(old(transcript).q, inv@),
            1 <= poly_info.max_degree < usize::MAX,
        ensures
            final(transcript).wf_spec(),
            final(transcript).q == old(transcript).q,
            final(transcript).edim == old(transcript).edim,
            final(transcript).cdim == old(transcript).cdim,
            ({
                let q = old(transcript).q;
                let edim = old(transcript).edim as nat;
                let st0 = crate::sumcheck::init_state_s(q, edim, old(transcript).state,
                    poly_info.num_variables as nat, poly_info.max_degree as nat);
                let pv = crate::sumcheck::proof_view(&proof.pointshift_sumcheck_proof);
                &&& (res is Ok <==> pv.len() == poly_info.num_variables
                        && crate::sumcheck::verify_checks_s(q, edim, inv@, pv, st0,
                            total_claim.c@, poly_info.max_degree as nat))
                &&& (res matches Ok(out) ==> {
                    let chain = crate::sumcheck::verify_chain_s(q, edim, inv@, pv, st0, total_claim.c@);
                    &&& out.0@.map_values(|e: RqNtt| e.c@) == chain.0
                    &&& out.1.c@ == chain.1
                    &&& final(transcript).state == chain.2
                    &&& elems_wf(out.0@, q, edim)
                    &&& out.0@.len() == poly_info.num_variables
                    &&& out.1.wf()
                    &&& out.1.q == q
                    &&& out.1.dim() == edim
                })
                &&& (res matches Err(e) ==> e matches FoldingError::SumCheckError(_))
                &&& (pv.len() != poly_info.num_variables
                        ==> (res matches Err(e) && e matches FoldingError::SumCheckError(se)
                            && se is MaxDegreeExceeded))
                &&& (pv.len() == poly_info.num_variables && poly_info.num_variables > 0
                        && pv[0].len() != poly_info.max_degree + 1
                        ==> (res matches Err(e) && e matches FoldingError::SumCheckError(se)
                            && se is MaxDegreeExceeded))
                &&& (pv.len() == poly_info.num_variables && poly_info.num_variables > 0
                        && pv[0].len() == poly_info.max_degree + 1
                        && ntt_add_s(q, pv[0][0], pv[0][1]) != total_claim.c@
                        ==> (res matches Err(e) && e matches FoldingError::SumCheckError(se)
                            && se is SumCheckFailed))
                &&& (pv.len() == poly_info.num_variables
                        && crate::sumcheck::verify_error_kind_s(q, edim, inv@, pv, st0,
                            total_claim.c@, poly_info.max_degree as nat) == 1
                        ==> (res matches Err(e) && e matches FoldingError::SumCheckError(se)
                            && se is MaxDegreeExceeded))
                &&& (pv.len() == poly_info.num_variables
                        && crate::sumcheck::verify_error_kind_s(q, edim, inv@, pv, st0,
                            total_claim.c@, poly_info.max_degree as nat) == 2
                        ==> (res matches Err(e) && e matches FoldingError::SumCheckError(se)
                            && se is SumCheckFailed))
            }),
    {
        let sub = MLSumcheck::verify_as_subprotocol(
            transcript, poly_info.num_variables, poly_info.max_degree, total_claim,
            &proof.pointshift_sumcheck_proof, inv);
        match sub {
            Ok(sc) => Ok((sc.point, sc.expected_evaluation)),
            Err(e) => Err(FoldingError::SumCheckError(e)),
        }
    }

    /// Check the claimed `theta`/`eta` evaluations against the expected
    /// final sumcheck evaluation.
    pub fn verify_evaluation(params: &RingParams, dp: &DecompositionParams, alpha_s: &Vec<u64>, beta_s: &Vec<u64>, mu_s: &Vec<u64>, zeta_s: &Vec<u64>, r_0: &Vec<RqNtt>, expected_evaluation: &RqNtt, proof: &FoldingProof, cm_i_s: &Vec<LCCCS>) -> (res: Result<(), FoldingError>)
        requires
            params.wf(),
            dp.k >= 1,
            dp.b_small >= 1,
            2 * dp.k <= usize::MAX,
            cm_i_s@.len() == 2 * dp.k,
            alpha_s@.len() == 2 * dp.k,
            zeta_s@.len() == 2 * dp.k,
            mu_s@.len() == dp.k,
            beta_s@.len() == r_0@.len(),
            seq_wf(params.q, alpha_s@),
            seq_wf(params.q, zeta_s@),
            seq_wf(params.q, mu_s@),
            seq_wf(params.q, beta_s@),
            elems_wf(r_0@, params.q, params.e as nat),
            forall|i: int| 0 <= i < cm_i_s@.len() ==> (#[trigger] cm_i_s@[i]).wf(params.q, params.e as nat),
            forall|i: int| 0 <= i < cm_i_s@.len() ==> (#[trigger] cm_i_s@[i]).r@.len() == r_0@.len(),
            proof.theta_s@.len() == 2 * dp.k,
            proof.eta_s@.len() == 2 * dp.k,
            eval_rows_wf(proof.theta_s@, params.q, params.e as nat),
            eval_rows_wf(proof.eta_s@, params.q, params.e as nat),
            expected_evaluation.wf(),
            expected_evaluation.q == params.q,
            expected_evaluation.dim() == params.e as nat,
        ensures
            res is Ok <==> ({
                let q = params.q;
                let edim = params.e as nat;
                let estar = eq_eval_s(q, beta_diag_s(edim, beta_s@), r0_view(r_0@), edim);
                let es = Seq::new(cm_i_s@.len(), |i: int| eq_eval_s(q,
                    elems_view(cm_i_s@[i].r@), r0_view(r_0@), edim));
                expected_eval_s(q, edim, alpha_s@, mu_s@, eval_rows_view(proof.theta_s@),
                    estar, es, zeta_s@, eval_rows_view(proof.eta_s@), dp.k as int, dp.b_small as nat)
                    == expected_evaluation.c@
            }),
            res is Err ==> (res->Err_0 matches FoldingError::SumCheckError(e)
                && e matches SumCheckError::SumCheckFailed(computed, expected)
                && computed.c@ == expected_eval_s(params.q, params.e as nat, alpha_s@, mu_s@,
                    eval_rows_view(proof.theta_s@),
                    eq_eval_s(params.q, beta_diag_s(params.e as nat, beta_s@), r0_view(r_0@), params.e as nat),
                    Seq::new(cm_i_s@.len(), |i: int| eq_eval_s(params.q,
                        elems_view(cm_i_s@[i].r@), r0_view(r_0@), params.e as nat)),
                    zeta_s@, eval_rows_view(proof.eta_s@), dp.k as int, dp.b_small as nat)
                && expected.c@ == expected_evaluation.c@),
    {
        let q = params.q;
        let edim = params.e;
        let ghost r0v = r0_view(r_0@);
        // e* = eq(beta, r_0)
        let mut beta_elems: Vec<RqNtt> = Vec::new();
        let mut bi: usize = 0;
        while bi < beta_s.len()
            invariant
                q >= 2,
                q == params.q,
                seq_wf(q, beta_s@),
                bi <= beta_s@.len(),
                beta_elems@.len() == bi,
                forall|a: int| 0 <= a < bi ==> (#[trigger] beta_elems@[a]).wf()
                    && beta_elems@[a].q == q && beta_elems@[a].dim() == edim as nat
                    && beta_elems@[a].c@ == diag_s(edim as nat, beta_s@[a]),
            decreases beta_s@.len() - bi,
        {
            let e = RqNtt::from_u128(q, edim, beta_s[bi] as u128);
            proof {
                vstd::arithmetic::div_mod::lemma_small_mod(beta_s@[bi as int] as nat, q as nat);
            }
            beta_elems.push(e);
            bi = bi + 1;
        }
        let e_asterisk = eq_eval(&beta_elems, r_0, q, edim);
        proof {
            assert(beta_elems@.map_values(|e: RqNtt| e.c@) =~= beta_diag_s(edim as nat, beta_s@));
        }
        // e_s[i] = eq(r_i, r_0)
        let mut e_s: Vec<RqNtt> = Vec::new();
        let mut i: usize = 0;
        while i < cm_i_s.len()
            invariant
                q >= 2,
                q == params.q,
                edim == params.e,
                elems_wf(r_0@, q, edim as nat),
                forall|a: int| 0 <= a < cm_i_s@.len() ==> (#[trigger] cm_i_s@[a]).wf(q, edim as nat),
                forall|a: int| 0 <= a < cm_i_s@.len() ==> (#[trigger] cm_i_s@[a]).r@.len() == r_0@.len(),
                r0v == r0_view(r_0@),
                i <= cm_i_s@.len(),
                e_s@.len() == i,
                forall|a: int| 0 <= a < i ==> (#[trigger] e_s@[a]).wf()
                    && e_s@[a].q == q && e_s@[a].dim() == edim as nat
                    && e_s@[a].c@ == eq_eval_s(q, elems_view(cm_i_s@[a].r@), r0v, edim as nat),
            decreases cm_i_s@.len() - i,
        {
            let ev = eq_eval(&cm_i_s[i].r, r_0, q, edim);
            proof {
                assert(cm_i_s@[i as int].r@.map_values(|e: RqNtt| e.c@) == elems_view(cm_i_s@[i as int].r@));
                assert(r_0@.map_values(|e: RqNtt| e.c@) == r0v);
            }
            e_s.push(ev);
            i = i + 1;
        }
        let should_equal = compute_sumcheck_claim_expected_value(
            q, edim, alpha_s, mu_s, &proof.theta_s, &e_asterisk, &e_s, zeta_s, &proof.eta_s,
            dp.k, dp.b_small);
        proof {
            assert(elems_view(e_s@) =~= Seq::new(cm_i_s@.len(), |a: int| eq_eval_s(q,
                elems_view(cm_i_s@[a].r@), r0v, edim as nat)));
        }
        if !should_equal.equals(expected_evaluation) {
            return Err(FoldingError::SumCheckError(SumCheckError::SumCheckFailed(should_equal, expected_evaluation.clone_elem())));
        }
        Ok(())
    }

    /// Verify a folding proof and return the folded instance.
    #[verifier::rlimit(60)]
    pub fn verify(params: &RingParams, dp: &DecompositionParams, ccs: &CCS, cm_i_s: &Vec<LCCCS>, proof: &FoldingProof, transcript: &mut FsTranscript) -> (res: Result<LCCCS, FoldingError>)
        requires
            old(transcript).wf_spec(),
            old(transcript).q == params.q,
            old(transcript).edim == params.e,
            old(transcript).cdim == params.d,
            fold_inputs_wf(*params, *dp, *ccs, cm_i_s@),
            proof.wf(params.q, params.e as nat),
            proof.theta_s@.len() == 2 * dp.k,
            proof.eta_s@.len() == 2 * dp.k,
            forall|i: int| 0 <= i < proof.theta_s@.len()
                ==> (#[trigger] proof.theta_s@[i])@.len() == proof.theta_s@[0]@.len(),
            forall|i: int| 0 <= i < proof.eta_s@.len()
                ==> (#[trigger] proof.eta_s@[i])@.len() == proof.eta_s@[0]@.len(),
        ensures
            final(transcript).wf_spec(),
            final(transcript).q == old(transcript).q,
            final(transcript).edim == old(transcript).edim,
            final(transcript).cdim == old(transcript).cdim,
            res is Ok <==> folding_verifier_accepts(*params, *dp, *ccs, cm_i_s@, *proof, old(transcript).state),
            res matches Ok(out) ==> ({
                let chain = folding_chain_s(*params, *dp, *ccs, cm_i_s@, *proof, old(transcript).state);
                let st_mid = folding_st_mid_s(*params, *dp, *ccs, cm_i_s@, *proof, old(transcript).state);
                &&& out.wf(params.q, params.e as nat)
                &&& cm_i_s@.len() == 2 * dp.k
                &&& elems_view(out.r@) == chain.0
                &&& fold_output_tied(*params, *dp, cm_i_s@, out, proof.theta_s@, proof.eta_s@, st_mid, *final(transcript))
                &&& final(transcript).state == small_challenges_state_s(params.q, st_mid, params.d as nat, dp.k as nat)
            }),
    {
        let q = params.q;
        let edim = params.e;
        let ghost st0 = old(transcript).state;
        match sanity_check(ccs, dp) {
            Err(e) => {
                return Err(e);
            },
            Ok(()) => {},
        }
        if cm_i_s.len() != 2 * dp.k {
            return Err(FoldingError::IncorrectLength);
        }

        // Step 1: the challenge tuple, in the prover's order.
        let (alpha_s, beta_s, zeta_s, mu_s) = squeeze_alpha_beta_zeta_mu(transcript, dp, ccs.s);
        proof {
            assert(alpha_s@ == abzm_alpha_s(q, st0, dp.k as nat, ccs.s as nat));
            assert(beta_s@ == abzm_beta_s(q, st0, dp.k as nat, ccs.s as nat));
            assert(zeta_s@ == abzm_zeta_s(q, st0, dp.k as nat, ccs.s as nat));
            assert(mu_s@ == abzm_mu_s(q, st0, dp.k as nat, ccs.s as nat));
            assert(transcript.state == abzm_state_s(q, st0, dp.k as nat, ccs.s as nat));
        }

        // The sumcheck claims from the instances alone.
        let (claim_g1, claim_g3) = calculate_claims(q, edim, &alpha_s, &zeta_s, cm_i_s);
        let total_claim = claim_g1.add(&claim_g3);
        proof {
            assert(total_claim.c@ == folding_total_claim_s(*params, *dp, *ccs, cm_i_s@, st0));
        }

        let poly_info = VPAuxInfo::new(ccs.s, 2 * dp.b_small);

        // Step 2: the sumcheck.
        let ghost chain = folding_chain_s(*params, *dp, *ccs, cm_i_s@, *proof, st0);
        let (r_0, expected_evaluation) = match Self::verify_sumcheck_proof(
            transcript, &params.inv, &poly_info, &total_claim, proof) {
            Ok(pair) => pair,
            Err(e) => {
                return Err(e);
            },
        };
        proof {
            assert(r_0@.map_values(|e: RqNtt| e.c@) == chain.0);
            assert(expected_evaluation.c@ == chain.1);
            assert(transcript.state == chain.2);
        }

        // Step 3: the evaluation claim.
        match Self::verify_evaluation(params, dp, &alpha_s, &beta_s, &mu_s, &zeta_s, &r_0,
            &expected_evaluation, proof, cm_i_s) {
            Ok(()) => {},
            Err(e) => {
                return Err(e);
            },
        }

        // Step 4: absorb theta then eta, and squeeze rho.
        let ghost st_theta0 = transcript.state;
        let mut ti: usize = 0;
        while ti < proof.theta_s.len()
            invariant
                transcript.wf_spec(),
                transcript.q == q,
                transcript.edim == edim,
                transcript.cdim == old(transcript).cdim,
                eval_rows_wf(proof.theta_s@, q, edim as nat),
                ti <= proof.theta_s@.len(),
                transcript.state == absorb_rows_s(q, st_theta0,
                    eval_rows_view(proof.theta_s@).subrange(0, ti as int)),
            decreases proof.theta_s@.len() - ti,
        {
            proof {
                lemma_absorb_rows_snoc(q, st_theta0, eval_rows_view(proof.theta_s@), ti as int);
            }
            transcript.absorb_elems_inner(&proof.theta_s[ti]);
            proof {
                assert(proof.theta_s@[ti as int]@.map_values(|e: RqNtt| e.c@)
                    == eval_rows_view(proof.theta_s@)[ti as int]);
            }
            ti = ti + 1;
        }
        proof {
            let tv = eval_rows_view(proof.theta_s@);
            assert(tv.subrange(0, tv.len() as int) =~= tv);
        }
        let ghost st_eta0 = transcript.state;
        let mut ei: usize = 0;
        while ei < proof.eta_s.len()
            invariant
                transcript.wf_spec(),
                transcript.q == q,
                transcript.edim == edim,
                transcript.cdim == old(transcript).cdim,
                eval_rows_wf(proof.eta_s@, q, edim as nat),
                ei <= proof.eta_s@.len(),
                transcript.state == absorb_rows_s(q, st_eta0,
                    eval_rows_view(proof.eta_s@).subrange(0, ei as int)),
            decreases proof.eta_s@.len() - ei,
        {
            proof {
                lemma_absorb_rows_snoc(q, st_eta0, eval_rows_view(proof.eta_s@), ei as int);
            }
            transcript.absorb_elems_inner(&proof.eta_s[ei]);
            proof {
                assert(proof.eta_s@[ei as int]@.map_values(|e: RqNtt| e.c@)
                    == eval_rows_view(proof.eta_s@)[ei as int]);
            }
            ei = ei + 1;
        }
        proof {
            let ev = eval_rows_view(proof.eta_s@);
            assert(ev.subrange(0, ev.len() as int) =~= ev);
        }
        let ghost st_mid = transcript.state;
        proof {
            assert(st_mid == folding_st_mid_s(*params, *dp, *ccs, cm_i_s@, *proof, st0));
        }
        let rho_s = get_rhos(transcript, dp);

        // Step 5: recombine exactly as the prover.
        let (v_0, cm_0, u_0, x_0) = compute_v0_u0_x0_cm_0(params, &rho_s, &proof.theta_s, cm_i_s, &proof.eta_s);
        if x_0.len() == 0 {
            return Err(FoldingError::IncorrectLength);
        }
        let h = x_0[x_0.len() - 1].clone_elem();
        let ghost x0v = elems_view(x_0@);
        let lcccs = prepare_public_output(r_0, v_0, cm_0, u_0, x_0, h);
        proof {
            assert(elems_view(lcccs.x_w@).push(lcccs.h.c@) =~= x0v);
            assert(rho_s@.map_values(|c: RqCoeff| crt_s(*params, c.c@))
                =~= small_challenges_seq_s(q, st_mid, params.d as nat, dp.k as nat)
                    .map_values(|c: Seq<u64>| crt_s(*params, c)));
            assert(fold_output_tied(*params, *dp, cm_i_s@, lcccs, proof.theta_s@, proof.eta_s@, st_mid, *transcript));
        }
        Ok(lcccs)
    }
}

/// The diagonal embeddings of the beta challenges.
pub open spec fn beta_diag_s(edim: nat, betas: Seq<u64>) -> Seq<Seq<u64>> {
    Seq::new(betas.len(), |i: int| diag_s(edim, betas[i]))
}

/// The view of the sumcheck point.
pub open spec fn r0_view(r0: Seq<RqNtt>) -> Seq<Seq<u64>> {
    r0.map_values(|e: RqNtt| e.c@)
}

} // verus!
