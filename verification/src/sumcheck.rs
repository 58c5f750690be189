//! The multilinear sumcheck interactive proof, in non-interactive form.
//!
//! The virtual polynomial is a sum of products of multilinear extensions
//! with ring coefficients.  In each round the prover sends the
//! evaluations of the current round polynomial at `0..=degree`; the
//! verifier re-absorbs them, squeezes the round challenge, checks that
//! the two boolean evaluations sum to the running claim, and moves the
//! claim forward by Lagrange interpolation at the challenge.

use vstd::prelude::*;
use vstd::arithmetic::power2::pow2;
use crate::ring::{RqNtt, seq_wf, ntt_add_s, ntt_mul_s, diag_s, scalar_mul_s};
use crate::mle::{DenseMultilinearExtension, ntt_sub_s, fix_var_s};
use crate::transcript::{
    Transcript, FsTranscript, absorb_coords_s, absorb_elems_s, challenge_next_s,
};
use crate::zq::zq_mul;

verus! {

/// Errors of the sumcheck verifier.
#[derive(Debug)]
pub enum SumCheckError {
    /// An evaluation of the polynomial layer failed.
    EvaluationError,
    /// The running claim does not match the round polynomial:
    /// carries the expected and the received sum.
    SumCheckFailed(RqNtt, RqNtt),
    /// A round polynomial has more evaluations than the degree allows,
    /// or the proof does not have one message per round.
    MaxDegreeExceeded,
}

/// One prover message: the round polynomial's evaluations at `0..=degree`.
pub struct ProverMsg {
    pub evaluations: Vec<RqNtt>,
}

/// A non-interactive sumcheck proof: one message per round.
pub struct Proof(pub Vec<ProverMsg>);

/// The prover's final state: the challenges squeezed in order.
pub struct ProverState {
    pub randomness: Vec<u64>,
}

/// The verifier's output: the challenge point and the evaluation the
/// polynomial must take there.
pub struct SubClaim {
    pub point: Vec<RqNtt>,
    pub expected_evaluation: RqNtt,
}

/// Shape data of a virtual polynomial: number of variables and the
/// degree bound of every round polynomial.
pub struct VPAuxInfo {
    pub num_variables: usize,
    pub max_degree: usize,
}

impl VPAuxInfo {
    pub fn new(num_variables: usize, max_degree: usize) -> (r: VPAuxInfo)
        ensures
            r.num_variables == num_variables,
            r.max_degree == max_degree,
    {
        VPAuxInfo { num_variables, max_degree }
    }
}

/// A sum of products of shifted multilinear extensions: each product
/// carries a ring coefficient and a list of factors, and each factor
/// `(idx, shift)` stands for `mles[idx] - shift` with a scalar shift.
pub struct VirtualPolynomial {
    pub q: u64,
    pub edim: usize,
    pub num_vars: usize,
    pub degree: usize,
    pub products: Vec<(RqNtt, Vec<(usize, u64)>)>,
    pub mles: Vec<DenseMultilinearExtension>,
}

/// The spec-level view of a product list.
pub open spec fn products_view(ps: Seq<(RqNtt, Vec<(usize, u64)>)>) -> Seq<(Seq<u64>, Seq<(usize, u64)>)> {
    ps.map_values(|p: (RqNtt, Vec<(usize, u64)>)| (p.0.c@, p.1@))
}

/// The spec-level view of a family of MLE tables.
pub open spec fn tables_view(ts: Seq<DenseMultilinearExtension>) -> Seq<Seq<Seq<u64>>> {
    ts.map_values(|m: DenseMultilinearExtension| m.view_rows())
}

/// Product of the selected shifted values, `prod_k (vals[i_k] - c_k)`.
pub open spec fn prod_eval_s(q: u64, edim: nat, vals: Seq<Seq<u64>>, idxs: Seq<(usize, u64)>) -> Seq<u64>
    decreases idxs.len(),
{
    if idxs.len() == 0 {
        diag_s(edim, 1u64)
    } else {
        ntt_mul_s(q, prod_eval_s(q, edim, vals, idxs.drop_last()),
            ntt_sub_s(q, vals[idxs.last().0 as int], diag_s(edim, idxs.last().1)))
    }
}

/// The combination function: `sum_p coeff_p * prod_k (vals[i_k] - c_k)`.
pub open spec fn comb_s(q: u64, edim: nat, products: Seq<(Seq<u64>, Seq<(usize, u64)>)>, vals: Seq<Seq<u64>>) -> Seq<u64>
    decreases products.len(),
{
    if products.len() == 0 {
        diag_s(edim, 0u64)
    } else {
        ntt_add_s(q,
            comb_s(q, edim, products.drop_last(), vals),
            ntt_mul_s(q, products.last().0, prod_eval_s(q, edim, vals, products.last().1)))
    }
}

/// The values the factors take at `(t, b)`: entry `m` is
/// `low + t * (high - low)` of table `m` at pair `b`.
pub open spec fn round_point_vals_s(q: u64, edim: nat, tables: Seq<Seq<Seq<u64>>>, t: u64, b: int) -> Seq<Seq<u64>> {
    Seq::new(tables.len(), |m: int| ntt_add_s(q, tables[m][2 * b],
        ntt_mul_s(q, diag_s(edim, ((t as int % q as int) as u64)),
            ntt_sub_s(q, tables[m][2 * b + 1], tables[m][2 * b]))))
}

/// The round polynomial evaluated at `t`: the sum of the combination
/// function over the first `n` pairs of the halved hypercube.
pub open spec fn round_sum_s(q: u64, edim: nat, products: Seq<(Seq<u64>, Seq<(usize, u64)>)>, tables: Seq<Seq<Seq<u64>>>, t: u64, n: int) -> Seq<u64>
    decreases n,
{
    if n <= 0 {
        diag_s(edim, 0u64)
    } else {
        ntt_add_s(q,
            round_sum_s(q, edim, products, tables, t, n - 1),
            comb_s(q, edim, products, round_point_vals_s(q, edim, tables, t, n - 1)))
    }
}

/// The full round message: evaluations at `0..=degree`.
pub open spec fn round_msg_s(q: u64, edim: nat, products: Seq<(Seq<u64>, Seq<(usize, u64)>)>, tables: Seq<Seq<Seq<u64>>>, degree: nat, half: int) -> Seq<Seq<u64>> {
    Seq::new(degree + 1, |t: int| round_sum_s(q, edim, products, tables, t as u64, half))
}

/// Fix the first variable of every table at the diagonal embedding of `r`.
pub open spec fn fix_tables_s(q: u64, edim: nat, tables: Seq<Seq<Seq<u64>>>, r: u64) -> Seq<Seq<Seq<u64>>> {
    tables.map_values(|tab: Seq<Seq<u64>>| fix_var_s(q, tab, diag_s(edim, r)))
}

/// The prover's run over `rounds` rounds starting from sponge state `st`
/// and tables of size `2^rounds`: the messages sent, the challenges
/// squeezed, and the final sponge state.
pub open spec fn prove_chain_s(q: u64, edim: nat, products: Seq<(Seq<u64>, Seq<(usize, u64)>)>, tables: Seq<Seq<Seq<u64>>>, st: u64, rounds: nat, degree: nat, half: int) -> (Seq<Seq<Seq<u64>>>, Seq<u64>, u64)
    decreases rounds,
{
    if rounds == 0 {
        (Seq::empty(), Seq::empty(), st)
    } else {
        let msg = round_msg_s(q, edim, products, tables, degree, half);
        let st_a = absorb_elems_s(q, st, msg);
        let r = challenge_next_s(q, st_a);
        let st_b = absorb_coords_s(q, r, diag_s(edim, r));
        let tables1 = fix_tables_s(q, edim, tables, r);
        let (msgs, rs, stf) = prove_chain_s(q, edim, products, tables1, st_b, (rounds - 1) as nat, degree, half / 2);
        (seq![msg] + msgs, seq![r] + rs, stf)
    }
}

impl VirtualPolynomial {
    pub open spec fn wf(&self) -> bool {
        &&& self.q >= 2
        &&& self.mles@.len() > 0
        &&& forall|i: int| 0 <= i < self.mles@.len() ==> (#[trigger] self.mles@[i]).wf()
        &&& forall|i: int| 0 <= i < self.mles@.len() ==> (#[trigger] self.mles@[i]).q == self.q
        &&& forall|i: int| 0 <= i < self.mles@.len() ==> (#[trigger] self.mles@[i]).edim == self.edim
        &&& forall|i: int| 0 <= i < self.mles@.len() ==> (#[trigger] self.mles@[i]).num_vars == self.num_vars
        &&& forall|i: int| 0 <= i < self.products@.len() ==> (#[trigger] self.products@[i]).0.wf()
        &&& forall|i: int| 0 <= i < self.products@.len() ==> (#[trigger] self.products@[i]).0.q == self.q
        &&& forall|i: int| 0 <= i < self.products@.len() ==> (#[trigger] self.products@[i]).0.dim() == self.edim as nat
        &&& forall|i: int, j: int| 0 <= i < self.products@.len() && 0 <= j < self.products@[i].1@.len()
            ==> (#[trigger] self.products@[i].1@[j]).0 < self.mles@.len()
                && self.products@[i].1@[j].1 < self.q
    }
}

/// The interactive-proof round computations of the multilinear sumcheck.
pub struct IPForMLSumcheck;

impl IPForMLSumcheck {
    /// Values of all factor tables at `(t, b)`.
    fn point_vals(q: u64, edim: usize, tables: &Vec<DenseMultilinearExtension>, t: u64, b: usize) -> (r: Vec<RqNtt>)
        requires
            q >= 2,
            forall|m: int| 0 <= m < tables@.len() ==> (#[trigger] tables@[m]).wf(),
            forall|m: int| 0 <= m < tables@.len() ==> (#[trigger] tables@[m]).q == q,
            forall|m: int| 0 <= m < tables@.len() ==> (#[trigger] tables@[m]).edim == edim,
            forall|m: int| 0 <= m < tables@.len() ==> 2 * b + 1 < (#[trigger] tables@[m]).evals@.len(),
        ensures
            r@.len() == tables@.len(),
            forall|m: int| 0 <= m < r@.len() ==> (#[trigger] r@[m]).wf(),
            forall|m: int| 0 <= m < r@.len() ==> (#[trigger] r@[m]).q == q,
            forall|m: int| 0 <= m < r@.len() ==> (#[trigger] r@[m]).dim() == edim as nat,
            r@.map_values(|e: RqNtt| e.c@)
                == round_point_vals_s(q, edim as nat, tables_view(tables@), t, b as int),
    {
        let te = RqNtt::from_u128(q, edim, t as u128);
        let mut out: Vec<RqNtt> = Vec::new();
        let mut m: usize = 0;
        while m < tables.len()
            invariant
                q >= 2,
                te.wf(),
                te.q == q,
                te.c@ == diag_s(edim as nat, ((t as int % q as int) as u64)),
                forall|k: int| 0 <= k < tables@.len() ==> (#[trigger] tables@[k]).wf(),
                forall|k: int| 0 <= k < tables@.len() ==> (#[trigger] tables@[k]).q == q,
                forall|k: int| 0 <= k < tables@.len() ==> (#[trigger] tables@[k]).edim == edim,
                forall|k: int| 0 <= k < tables@.len() ==> 2 * b + 1 < (#[trigger] tables@[k]).evals@.len(),
                m <= tables@.len(),
                out@.len() == m,
                forall|k: int| 0 <= k < m ==> (#[trigger] out@[k]).wf(),
                forall|k: int| 0 <= k < m ==> (#[trigger] out@[k]).q == q,
                forall|k: int| 0 <= k < m ==> (#[trigger] out@[k]).dim() == edim as nat,
                forall|k: int| 0 <= k < m ==> (#[trigger] out@[k]).c@
                    == round_point_vals_s(q, edim as nat, tables_view(tables@), t, b as int)[k],
            decreases tables@.len() - m,
        {
            let tab = &tables[m];
            let n = tab.evals.len();
            proof {
                assert(2 * b + 1 < n);
            }
            let low = &tab.evals[2 * b];
            let high = &tab.evals[2 * b + 1];
            let diff = high.sub(low);
            proof {
                assert(diff.c@ =~= ntt_sub_s(q, tab.view_rows()[2 * b as int + 1], tab.view_rows()[2 * b as int]));
            }
            let scaled = te.mul(&diff);
            let v = low.add(&scaled);
            proof {
                assert(tables_view(tables@)[m as int] == tab.view_rows());
                assert(v.c@ == round_point_vals_s(q, edim as nat, tables_view(tables@), t, b as int)[m as int]);
            }
            out.push(v);
            m = m + 1;
        }
        proof {
            assert(out@.map_values(|e: RqNtt| e.c@)
                =~= round_point_vals_s(q, edim as nat, tables_view(tables@), t, b as int));
        }
        out
    }

    /// The combination function applied to one value vector.
    fn combine(q: u64, edim: usize, products: &Vec<(RqNtt, Vec<(usize, u64)>)>, vals: &Vec<RqNtt>) -> (r: RqNtt)
        requires
            q >= 2,
            forall|i: int| 0 <= i < products@.len() ==> (#[trigger] products@[i]).0.wf(),
            forall|i: int| 0 <= i < products@.len() ==> (#[trigger] products@[i]).0.q == q,
            forall|i: int| 0 <= i < products@.len() ==> (#[trigger] products@[i]).0.dim() == edim as nat,
            forall|i: int, j: int| 0 <= i < products@.len() && 0 <= j < products@[i].1@.len()
                ==> (#[trigger] products@[i].1@[j]).0 < vals@.len()
                    && products@[i].1@[j].1 < q,
            forall|i: int| 0 <= i < vals@.len() ==> (#[trigger] vals@[i]).wf(),
            forall|i: int| 0 <= i < vals@.len() ==> (#[trigger] vals@[i]).q == q,
            forall|i: int| 0 <= i < vals@.len() ==> (#[trigger] vals@[i]).dim() == edim as nat,
        ensures
            r.wf(),
            r.q == q,
            r.dim() == edim as nat,
            r.c@ == comb_s(q, edim as nat, products_view(products@), vals@.map_values(|e: RqNtt| e.c@)),
    {
        let ghost vv = vals@.map_values(|e: RqNtt| e.c@);
        let mut acc = RqNtt::zero(q, edim);
        let mut i: usize = 0;
        proof {
            assert(products_view(products@).subrange(0, 0) =~= Seq::<(Seq<u64>, Seq<(usize, u64)>)>::empty());
            assert(acc.c@ == comb_s(q, edim as nat, products_view(products@).subrange(0, 0), vv));
        }
        while i < products.len()
            invariant
                q >= 2,
                forall|k: int| 0 <= k < products@.len() ==> (#[trigger] products@[k]).0.wf(),
                forall|k: int| 0 <= k < products@.len() ==> (#[trigger] products@[k]).0.q == q,
                forall|k: int| 0 <= k < products@.len() ==> (#[trigger] products@[k]).0.dim() == edim as nat,
                forall|k: int, j: int| 0 <= k < products@.len() && 0 <= j < products@[k].1@.len()
                    ==> (#[trigger] products@[k].1@[j]).0 < vals@.len()
                        && products@[k].1@[j].1 < q,
                forall|k: int| 0 <= k < vals@.len() ==> (#[trigger] vals@[k]).wf(),
                forall|k: int| 0 <= k < vals@.len() ==> (#[trigger] vals@[k]).q == q,
                forall|k: int| 0 <= k < vals@.len() ==> (#[trigger] vals@[k]).dim() == edim as nat,
                vv == vals@.map_values(|e: RqNtt| e.c@),
                i <= products@.len(),
                acc.wf(),
                acc.q == q,
                acc.dim() == edim as nat,
                acc.c@ == comb_s(q, edim as nat, products_view(products@).subrange(0, i as int), vv),
            decreases products@.len() - i,
        {
            let coeff = &products[i].0;
            let idxs = &products[i].1;
            let mut term = coeff.clone_elem();
            let ghost ii = idxs@;
            let mut j: usize = 0;
            proof {
                assert(ii.subrange(0, 0) =~= Seq::<(usize, u64)>::empty());
                assert(term.c@ == ntt_mul_s(q, coeff.c@, prod_eval_s(q, edim as nat, vv, ii.subrange(0, 0))))
                by {
                    lemma_mul_diag_one(q, coeff.c@, edim as nat);
                };
            }
            while j < idxs.len()
                invariant
                    q >= 2,
                    coeff.wf(),
                    coeff.q == q,
                    coeff.dim() == edim as nat,
                    forall|k: int| 0 <= k < ii.len() ==> (#[trigger] ii[k]).0 < vals@.len() && ii[k].1 < q,
                    forall|k: int| 0 <= k < vals@.len() ==> (#[trigger] vals@[k]).wf(),
                    forall|k: int| 0 <= k < vals@.len() ==> (#[trigger] vals@[k]).q == q,
                    forall|k: int| 0 <= k < vals@.len() ==> (#[trigger] vals@[k]).dim() == edim as nat,
                    vv == vals@.map_values(|e: RqNtt| e.c@),
                    ii == idxs@,
                    j <= ii.len(),
                    term.wf(),
                    term.q == q,
                    term.dim() == edim as nat,
                    term.c@ == ntt_mul_s(q, coeff.c@, prod_eval_s(q, edim as nat, vv, ii.subrange(0, j as int))),
                decreases ii.len() - j,
            {
                let shift = RqNtt::from_u128(q, edim, idxs[j].1 as u128);
                proof {
                    vstd::arithmetic::div_mod::lemma_small_mod(ii[j as int].1 as nat, q as nat);
                }
                let factor = vals[idxs[j].0].sub(&shift);
                proof {
                    assert(factor.c@ =~= ntt_sub_s(q, vals@[ii[j as int].0 as int].c@, diag_s(edim as nat, ii[j as int].1)));
                }
                term = term.mul(&factor);
                proof {
                    let pre = ii.subrange(0, j as int);
                    let cur = ii.subrange(0, j + 1);
                    assert(cur.drop_last() =~= pre);
                    assert(cur.last() == ii[j as int]);
                    lemma_prod_eval_len(q, edim as nat, vv, pre);
                    assert(vv[ii[j as int].0 as int] == vals@[ii[j as int].0 as int].c@);
                    lemma_mul_assoc_rows(q, coeff.c@, prod_eval_s(q, edim as nat, vv, pre), factor.c@);
                }
                j = j + 1;
            }
            proof {
                assert(ii.subrange(0, ii.len() as int) =~= ii);
            }
            acc = acc.add(&term);
            proof {
                let ps = products_view(products@);
                let pre = ps.subrange(0, i as int);
                let cur = ps.subrange(0, i + 1);
                assert(cur.drop_last() =~= pre);
                assert(cur.last() == ps[i as int]);
                assert(ps[i as int].0 == coeff.c@);
                assert(ps[i as int].1 == ii);
            }
            i = i + 1;
        }
        proof {
            assert(products_view(products@).subrange(0, products_view(products@).len() as int)
                =~= products_view(products@));
        }
        acc
    }

    /// One prover round: the evaluations of the round polynomial at
    /// `0..=degree`, summing over `half` pairs of the hypercube.
    fn prove_round(q: u64, edim: usize, products: &Vec<(RqNtt, Vec<(usize, u64)>)>, tables: &Vec<DenseMultilinearExtension>, degree: usize, half: usize) -> (msg: Vec<RqNtt>)
        requires
            q >= 2,
            forall|m: int| 0 <= m < tables@.len() ==> (#[trigger] tables@[m]).wf(),
            forall|m: int| 0 <= m < tables@.len() ==> (#[trigger] tables@[m]).q == q,
            forall|m: int| 0 <= m < tables@.len() ==> (#[trigger] tables@[m]).edim == edim,
            forall|m: int| 0 <= m < tables@.len() ==> 2 * half <= (#[trigger] tables@[m]).evals@.len(),
            forall|i: int| 0 <= i < products@.len() ==> (#[trigger] products@[i]).0.wf(),
            forall|i: int| 0 <= i < products@.len() ==> (#[trigger] products@[i]).0.q == q,
            forall|i: int| 0 <= i < products@.len() ==> (#[trigger] products@[i]).0.dim() == edim as nat,
            forall|i: int, j: int| 0 <= i < products@.len() && 0 <= j < products@[i].1@.len()
                ==> (#[trigger] products@[i].1@[j]).0 < tables@.len()
                    && products@[i].1@[j].1 < q,
            degree < usize::MAX,
        ensures
            msg@.len() == degree + 1,
            forall|t: int| 0 <= t < msg@.len() ==> (#[trigger] msg@[t]).wf(),
            forall|t: int| 0 <= t < msg@.len() ==> (#[trigger] msg@[t]).q == q,
            forall|t: int| 0 <= t < msg@.len() ==> (#[trigger] msg@[t]).dim() == edim as nat,
            msg@.map_values(|e: RqNtt| e.c@)
                == round_msg_s(q, edim as nat, products_view(products@), tables_view(tables@), degree as nat, half as int),
    {
        let mut msg: Vec<RqNtt> = Vec::new();
        let mut t: usize = 0;
        while t < degree + 1
            invariant
                q >= 2,
                degree < usize::MAX,
                forall|m: int| 0 <= m < tables@.len() ==> (#[trigger] tables@[m]).wf(),
                forall|m: int| 0 <= m < tables@.len() ==> (#[trigger] tables@[m]).q == q,
                forall|m: int| 0 <= m < tables@.len() ==> (#[trigger] tables@[m]).edim == edim,
                forall|m: int| 0 <= m < tables@.len() ==> 2 * half <= (#[trigger] tables@[m]).evals@.len(),
                forall|i: int| 0 <= i < products@.len() ==> (#[trigger] products@[i]).0.wf(),
                forall|i: int| 0 <= i < products@.len() ==> (#[trigger] products@[i]).0.q == q,
                forall|i: int| 0 <= i < products@.len() ==> (#[trigger] products@[i]).0.dim() == edim as nat,
                forall|i: int, j: int| 0 <= i < products@.len() && 0 <= j < products@[i].1@.len()
                    ==> (#[trigger] products@[i].1@[j]).0 < tables@.len()
                        && products@[i].1@[j].1 < q,
                t <= degree + 1,
                msg@.len() == t,
                forall|k: int| 0 <= k < t ==> (#[trigger] msg@[k]).wf(),
                forall|k: int| 0 <= k < t ==> (#[trigger] msg@[k]).q == q,
                forall|k: int| 0 <= k < t ==> (#[trigger] msg@[k]).dim() == edim as nat,
                forall|k: int| 0 <= k < t ==> (#[trigger] msg@[k]).c@
                    == round_sum_s(q, edim as nat, products_view(products@), tables_view(tables@), k as u64, half as int),
            decreases degree + 1 - t,
        {
            let mut acc = RqNtt::zero(q, edim);
            let mut b: usize = 0;
            while b < half
                invariant
                    q >= 2,
                    forall|m: int| 0 <= m < tables@.len() ==> (#[trigger] tables@[m]).wf(),
                    forall|m: int| 0 <= m < tables@.len() ==> (#[trigger] tables@[m]).q == q,
                    forall|m: int| 0 <= m < tables@.len() ==> (#[trigger] tables@[m]).edim == edim,
                    forall|m: int| 0 <= m < tables@.len() ==> 2 * half <= (#[trigger] tables@[m]).evals@.len(),
                    forall|i: int| 0 <= i < products@.len() ==> (#[trigger] products@[i]).0.wf(),
                    forall|i: int| 0 <= i < products@.len() ==> (#[trigger] products@[i]).0.q == q,
                    forall|i: int| 0 <= i < products@.len() ==> (#[trigger] products@[i]).0.dim() == edim as nat,
                    forall|i: int, j: int| 0 <= i < products@.len() && 0 <= j < products@[i].1@.len()
                        ==> (#[trigger] products@[i].1@[j]).0 < tables@.len()
                            && products@[i].1@[j].1 < q,
                    b <= half,
                    acc.wf(),
                    acc.q == q,
                    acc.dim() == edim as nat,
                    acc.c@ == round_sum_s(q, edim as nat, products_view(products@), tables_view(tables@), t as u64, b as int),
                decreases half - b,
            {
                let vals = Self::point_vals(q, edim, tables, t as u64, b);
                let c = Self::combine(q, edim, products, &vals);
                acc = acc.add(&c);
                b = b + 1;
            }
            msg.push(acc);
            t = t + 1;
        }
        proof {
            assert(msg@.map_values(|e: RqNtt| e.c@)
                =~= round_msg_s(q, edim as nat, products_view(products@), tables_view(tables@), degree as nat, half as int));
        }
        msg
    }
}

/// The verifier's walk over the prover messages: the challenge point,
/// the final expected evaluation, and the final sponge state.  Each round
/// absorbs the message, squeezes the round challenge, absorbs it back,
/// and moves the claim forward by interpolation at the challenge.
pub open spec fn verify_chain_s(q: u64, edim: nat, inv: Seq<u64>, msgs: Seq<Seq<Seq<u64>>>, st: u64, expected: Seq<u64>) -> (Seq<Seq<u64>>, Seq<u64>, u64)
    decreases msgs.len(),
{
    if msgs.len() == 0 {
        (Seq::empty(), expected, st)
    } else {
        let msg = msgs[0];
        let st_a = absorb_elems_s(q, st, msg);
        let r = challenge_next_s(q, st_a);
        let st_b = absorb_coords_s(q, r, diag_s(edim, r));
        let e1 = interpolate_s(q, edim, inv, msg, diag_s(edim, r));
        let rest = verify_chain_s(q, edim, inv, msgs.subrange(1, msgs.len() as int), st_b, e1);
        (seq![diag_s(edim, r)] + rest.0, rest.1, rest.2)
    }
}

/// All round checks of the verifier: every message has `degree + 1`
/// evaluations and its boolean evaluations sum to the running claim.
pub open spec fn verify_checks_s(q: u64, edim: nat, inv: Seq<u64>, msgs: Seq<Seq<Seq<u64>>>, st: u64, expected: Seq<u64>, degree: nat) -> bool
    decreases msgs.len(),
{
    if msgs.len() == 0 {
        true
    } else {
        let msg = msgs[0];
        &&& msg.len() == degree + 1
        &&& ntt_add_s(q, msg[0], msg[1]) == expected
        &&& {
            let st_a = absorb_elems_s(q, st, msg);
            let r = challenge_next_s(q, st_a);
            let st_b = absorb_coords_s(q, r, diag_s(edim, r));
            let e1 = interpolate_s(q, edim, inv, msg, diag_s(edim, r));
            verify_checks_s(q, edim, inv, msgs.subrange(1, msgs.len() as int), st_b, e1, degree)
        }
    }
}


/// Which check fails first in the verifier's walk: `0` when every round
/// passes, `1` when the first failing round has the wrong number of
/// evaluations, `2` when its boolean evaluations miss the running claim.
pub open spec fn verify_error_kind_s(q: u64, edim: nat, inv: Seq<u64>, msgs: Seq<Seq<Seq<u64>>>, st: u64, expected: Seq<u64>, degree: nat) -> int
    decreases msgs.len(),
{
    if msgs.len() == 0 {
        0
    } else {
        let msg = msgs[0];
        if msg.len() != degree + 1 {
            1
        } else if ntt_add_s(q, msg[0], msg[1]) != expected {
            2
        } else {
            let st_a = absorb_elems_s(q, st, msg);
            let r = challenge_next_s(q, st_a);
            let st_b = absorb_coords_s(q, r, diag_s(edim, r));
            let e1 = interpolate_s(q, edim, inv, msg, diag_s(edim, r));
            verify_error_kind_s(q, edim, inv, msgs.subrange(1, msgs.len() as int), st_b, e1, degree)
        }
    }
}

/// Inverse of `i - j` modulo `q`, drawn from the small-inverse table.
pub open spec fn invdiff_s(q: u64, inv: Seq<u64>, i: int, j: int) -> u64 {
    if i > j {
        inv[i - j]
    } else {
        crate::zq::zq_sub(q, 0u64, inv[j - i])
    }
}

/// One Lagrange factor: `(r - j) * inv(i - j)`.
pub open spec fn lag_term_s(q: u64, edim: nat, inv: Seq<u64>, r: Seq<u64>, i: int, j: int) -> Seq<u64> {
    scalar_mul_s(q, invdiff_s(q, inv, i, j), ntt_sub_s(q, r, diag_s(edim, ((j % q as int) as u64))))
}

/// Product of the Lagrange factors with `j < n`, `j != i`.
pub open spec fn lag_prod_s(q: u64, edim: nat, inv: Seq<u64>, r: Seq<u64>, i: int, n: int) -> Seq<u64>
    decreases n,
{
    if n <= 0 {
        diag_s(edim, 1u64)
    } else if n - 1 == i {
        lag_prod_s(q, edim, inv, r, i, n - 1)
    } else {
        ntt_mul_s(q, lag_prod_s(q, edim, inv, r, i, n - 1), lag_term_s(q, edim, inv, r, i, n - 1))
    }
}

/// Partial Lagrange interpolation sum over the first `n` sample points.
pub open spec fn interp_sum_s(q: u64, edim: nat, inv: Seq<u64>, evals: Seq<Seq<u64>>, r: Seq<u64>, n: int) -> Seq<u64>
    decreases n,
{
    if n <= 0 {
        diag_s(edim, 0u64)
    } else {
        ntt_add_s(q,
            interp_sum_s(q, edim, inv, evals, r, n - 1),
            ntt_mul_s(q, evals[n - 1], lag_prod_s(q, edim, inv, r, n - 1, evals.len() as int)))
    }
}

/// The value at `r` of the unique polynomial of degree below `evals.len()`
/// through the points `(0, evals[0]), (1, evals[1]), ...`.
pub open spec fn interpolate_s(q: u64, edim: nat, inv: Seq<u64>, evals: Seq<Seq<u64>>, r: Seq<u64>) -> Seq<u64> {
    interp_sum_s(q, edim, inv, evals, r, evals.len() as int)
}

/// Evaluate the polynomial through `(j, evals[j])` at the point `r` by
/// Lagrange interpolation; the verifier never sees coefficients.
pub fn interpolate_uni_poly(q: u64, edim: usize, inv: &Vec<u64>, evals: &Vec<RqNtt>, r: &RqNtt) -> (res: RqNtt)
    requires
        q >= 2,
        inv@.len() >= evals@.len(),
        seq_wf(q, inv@),
        forall|i: int| 0 <= i < evals@.len() ==> (#[trigger] evals@[i]).wf(),
        forall|i: int| 0 <= i < evals@.len() ==> (#[trigger] evals@[i]).q == q,
        forall|i: int| 0 <= i < evals@.len() ==> (#[trigger] evals@[i]).dim() == edim as nat,
        r.wf(),
        r.q == q,
        r.dim() == edim as nat,
    ensures
        res.wf(),
        res.q == q,
        res.dim() == edim as nat,
        res.c@ == interpolate_s(q, edim as nat, inv@, evals@.map_values(|e: RqNtt| e.c@), r.c@),
{
    let ghost ev = evals@.map_values(|e: RqNtt| e.c@);
    let n = evals.len();
    let mut acc = RqNtt::zero(q, edim);
    let mut i: usize = 0;
    while i < n
        invariant
            q >= 2,
            n == evals@.len(),
            inv@.len() >= n,
            seq_wf(q, inv@),
            forall|k: int| 0 <= k < evals@.len() ==> (#[trigger] evals@[k]).wf(),
            forall|k: int| 0 <= k < evals@.len() ==> (#[trigger] evals@[k]).q == q,
            forall|k: int| 0 <= k < evals@.len() ==> (#[trigger] evals@[k]).dim() == edim as nat,
            r.wf(),
            r.q == q,
            r.dim() == edim as nat,
            ev == evals@.map_values(|e: RqNtt| e.c@),
            i <= n,
            acc.wf(),
            acc.q == q,
            acc.dim() == edim as nat,
            acc.c@ == interp_sum_s(q, edim as nat, inv@, ev, r.c@, i as int),
        decreases n - i,
    {
        let mut term = RqNtt::from_u128(q, edim, 1u128);
        proof {
            vstd::arithmetic::div_mod::lemma_small_mod(1nat, q as nat);
            assert(term.c@ == lag_prod_s(q, edim as nat, inv@, r.c@, i as int, 0));
        }
        let mut j: usize = 0;
        while j < n
            invariant
                q >= 2,
                n == evals@.len(),
                inv@.len() >= n,
                seq_wf(q, inv@),
                r.wf(),
                r.q == q,
                r.dim() == edim as nat,
                ev == evals@.map_values(|e: RqNtt| e.c@),
                i < n,
                j <= n,
                term.wf(),
                term.q == q,
                term.dim() == edim as nat,
                term.c@ == lag_prod_s(q, edim as nat, inv@, r.c@, i as int, j as int),
            decreases n - j,
        {
            if j != i {
                let je = RqNtt::from_u128(q, edim, j as u128);
                let rj = r.sub(&je);
                proof {
                    assert(rj.c@ =~= ntt_sub_s(q, r.c@, diag_s(edim as nat, ((j as int % q as int) as u64))));
                }
                let idv: u64 = if i > j {
                    inv[i - j]
                } else {
                    crate::zq::sub_mod(q, 0, inv[j - i])
                };
                proof {
                    assert(idv == invdiff_s(q, inv@, i as int, j as int));
                }
                let factor = scale_elem(q, idv, &rj);
                term = term.mul(&factor);
                proof {
                    lemma_mul_comm_rows(q, term.c@.len() as nat);
                }
            }
            j = j + 1;
        }
        let t2 = evals[i].mul(&term);
        acc = acc.add(&t2);
        i = i + 1;
    }
    acc
}

/// Multiply every coordinate of `x` by the scalar `k`.
fn scale_elem(q: u64, k: u64, x: &RqNtt) -> (r: RqNtt)
    requires
        q >= 2,
        k < q,
        x.wf(),
        x.q == q,
    ensures
        r.wf(),
        r.q == q,
        r.c@ == scalar_mul_s(q, k, x.c@),
        r.dim() == x.dim(),
{
    let ke = RqNtt { q, c: vec_fill(q, k, x.c.len()) };
    let res = ke.mul(x);
    proof {
        assert(res.c@ =~= scalar_mul_s(q, k, x.c@));
    }
    res
}

fn vec_fill(q: u64, k: u64, n: usize) -> (r: Vec<u64>)
    requires
        q >= 2,
        k < q,
    ensures
        r@.len() == n,
        r@ == diag_s(n as nat, k),
        seq_wf(q, r@),
{
    let mut out: Vec<u64> = Vec::new();
    let mut i: usize = 0;
    while i < n
        invariant
            i <= n,
            out@.len() == i,
            forall|j: int| 0 <= j < i ==> out@[j] == k,
        decreases n - i,
    {
        out.push(k);
        i = i + 1;
    }
    proof {
        assert(out@ =~= diag_s(n as nat, k));
    }
    out
}

/// Coordinate-wise commutativity of the ring product.
proof fn lemma_mul_comm_rows(q: u64, dummy: nat)
    ensures
        forall|a: Seq<u64>, b: Seq<u64>| a.len() == b.len()
            ==> #[trigger] ntt_mul_s(q, a, b) == ntt_mul_s(q, b, a),
{
    assert forall|a: Seq<u64>, b: Seq<u64>| a.len() == b.len()
        implies #[trigger] ntt_mul_s(q, a, b) == ntt_mul_s(q, b, a) by {
        assert forall|i: int| 0 <= i < a.len() implies ntt_mul_s(q, a, b)[i] == ntt_mul_s(q, b, a)[i] by {
            assert(a[i] * b[i] == b[i] * a[i]) by (nonlinear_arith);
        }
        assert(ntt_mul_s(q, a, b) =~= ntt_mul_s(q, b, a));
    }
}

/// A product of selected values keeps the ring dimension.
proof fn lemma_prod_eval_len(q: u64, edim: nat, vals: Seq<Seq<u64>>, idxs: Seq<(usize, u64)>)
    ensures
        prod_eval_s(q, edim, vals, idxs).len() == edim,
    decreases idxs.len(),
{
    if idxs.len() > 0 {
        lemma_prod_eval_len(q, edim, vals, idxs.drop_last());
    }
}

/// `(coeff * 1) == coeff` for the diagonal one, coordinate-wise.
proof fn lemma_mul_diag_one(q: u64, a: Seq<u64>, edim: nat)
    requires
        q >= 2,
        a.len() == edim,
        seq_wf(q, a),
    ensures
        ntt_mul_s(q, a, diag_s(edim, 1u64)) == a,
{
    assert forall|i: int| 0 <= i < edim implies ntt_mul_s(q, a, diag_s(edim, 1u64))[i] == a[i] by {
        assert(zq_mul(q, a[i], 1u64) == a[i]) by {
            vstd::arithmetic::div_mod::lemma_small_mod(a[i] as nat, q as nat);
        };
    }
    assert(ntt_mul_s(q, a, diag_s(edim, 1u64)) =~= a);
}

/// Coordinate-wise associativity: `(a * b) * c == a * (b * c)`.
proof fn lemma_mul_assoc_rows(q: u64, a: Seq<u64>, b: Seq<u64>, c: Seq<u64>)
    requires
        q >= 2,
        a.len() == b.len(),
        b.len() == c.len(),
    ensures
        ntt_mul_s(q, ntt_mul_s(q, a, b), c) == ntt_mul_s(q, a, ntt_mul_s(q, b, c)),
{
    let qi = q as int;
    assert forall|i: int| 0 <= i < a.len() implies
        ntt_mul_s(q, ntt_mul_s(q, a, b), c)[i] == ntt_mul_s(q, a, ntt_mul_s(q, b, c))[i] by {
        let x = a[i] as int;
        let y = b[i] as int;
        let z = c[i] as int;
        vstd::arithmetic::div_mod::lemma_mul_mod_noop_general(x * y, z, qi);
        vstd::arithmetic::div_mod::lemma_mul_mod_noop_general(x, y * z, qi);
        assert((x * y) * z == x * (y * z)) by (nonlinear_arith);
    }
    assert(ntt_mul_s(q, ntt_mul_s(q, a, b), c) =~= ntt_mul_s(q, a, ntt_mul_s(q, b, c)));
}

/// Every message of the proof is a vector of well-formed ring elements.
pub open spec fn proof_wf(p: &Proof, q: u64, edim: nat) -> bool {
    forall|i: int, j: int| 0 <= i < p.0@.len() && 0 <= j < p.0@[i].evaluations@.len()
        ==> (#[trigger] p.0@[i].evaluations@[j]).wf()
            && p.0@[i].evaluations@[j].q == q
            && p.0@[i].evaluations@[j].dim() == edim
}

/// The proof as a mathematical sequence of messages.
pub open spec fn proof_view(p: &Proof) -> Seq<Seq<Seq<u64>>> {
    p.0@.map_values(|m: ProverMsg| m.evaluations@.map_values(|e: RqNtt| e.c@))
}

/// The sponge state after the initial absorption of `nvars` and `degree`.
pub open spec fn init_state_s(q: u64, edim: nat, st: u64, nvars: nat, degree: nat) -> u64 {
    absorb_coords_s(q,
        absorb_coords_s(q, st, diag_s(edim, ((nvars % q as nat) as u64))),
        diag_s(edim, ((degree % q as nat) as u64)))
}

/// Sumcheck for sums of products of multilinear extensions.
pub struct MLSumcheck;

impl MLSumcheck {
    /// The sum a proof claims: the boolean evaluations of its first
    /// round polynomial.
    pub fn extract_sum(proof: &Proof) -> (r: RqNtt)
        requires
            proof.0@.len() >= 1,
            proof.0@[0].evaluations@.len() >= 2,
            proof.0@[0].evaluations@[0].wf(),
            proof.0@[0].evaluations@[1].wf(),
            proof.0@[0].evaluations@[0].q == proof.0@[0].evaluations@[1].q,
            proof.0@[0].evaluations@[0].dim() == proof.0@[0].evaluations@[1].dim(),
        ensures
            r.wf(),
            r.q == proof.0@[0].evaluations@[0].q,
            r.c@ == ntt_add_s(r.q, proof.0@[0].evaluations@[0].c@, proof.0@[0].evaluations@[1].c@),
    {
        let msg = &proof.0[0];
        msg.evaluations[0].add(&msg.evaluations[1])
    }

    /// Run the sumcheck prover on the virtual polynomial `g`, driving the
    /// transcript: absorb `nvars` and `degree`, then per round absorb the
    /// round polynomial, squeeze the round challenge and absorb it back.
    pub fn prove_as_subprotocol(transcript: &mut FsTranscript, g: &VirtualPolynomial) -> (res: (Proof, ProverState))
        requires
            old(transcript).wf_spec(),
            old(transcript).q == g.q,
            old(transcript).edim == g.edim,
            g.wf(),
            g.degree < usize::MAX,
        ensures
            final(transcript).wf_spec(),
            final(transcript).q == old(transcript).q,
            final(transcript).edim == old(transcript).edim,
            final(transcript).cdim == old(transcript).cdim,
            proof_wf(&res.0, g.q, g.edim as nat),
            res.0.0@.len() == g.num_vars,
            res.1.randomness@.len() == g.num_vars,
            seq_wf(g.q, res.1.randomness@),
            forall|i: int| 0 <= i < g.num_vars
                ==> (#[trigger] res.0.0@[i]).evaluations@.len() == g.degree + 1,
            ({
                let chain = prove_chain_s(g.q, g.edim as nat, products_view(g.products@),
                    tables_view(g.mles@),
                    init_state_s(g.q, g.edim as nat, old(transcript).state, g.num_vars as nat, g.degree as nat),
                    g.num_vars as nat, g.degree as nat, pow2(g.num_vars as nat) as int / 2);
                proof_view(&res.0) == chain.0
                    && res.1.randomness@ == chain.1
                    && final(transcript).state == chain.2
            }),
    {
        let q = g.q;
        let edim = g.edim;
        let nv = g.num_vars;
        let degree = g.degree;
        let nve = RqNtt::from_u128(q, edim, nv as u128);
        transcript.absorb_inner(&nve);
        let dge = RqNtt::from_u128(q, edim, degree as u128);
        transcript.absorb_inner(&dge);
        let ghost st0 = transcript.state;
        proof {
            assert(st0 == init_state_s(q, edim as nat, old(transcript).state, nv as nat, degree as nat));
        }

        let mut tables: Vec<DenseMultilinearExtension> = Vec::new();
        let mut m: usize = 0;
        while m < g.mles.len()
            invariant
                g.wf(),
                q == g.q,
                edim == g.edim,
                nv == g.num_vars,
                m <= g.mles@.len(),
                tables@.len() == m,
                forall|k: int| 0 <= k < m ==> (#[trigger] tables@[k]).wf(),
                forall|k: int| 0 <= k < m ==> (#[trigger] tables@[k]).q == q,
                forall|k: int| 0 <= k < m ==> (#[trigger] tables@[k]).edim == edim,
                forall|k: int| 0 <= k < m ==> (#[trigger] tables@[k]).num_vars == nv,
                forall|k: int| 0 <= k < m ==> (#[trigger] tables@[k]).view_rows() == g.mles@[k].view_rows(),
            decreases g.mles@.len() - m,
        {
            tables.push(g.mles[m].clone_mle());
            m = m + 1;
        }
        proof {
            assert(tables_view(tables@) =~= tables_view(g.mles@));
        }

        let ghost ps = products_view(g.products@);
        let ghost full = prove_chain_s(q, edim as nat, ps, tables_view(g.mles@), st0,
            nv as nat, degree as nat, pow2(nv as nat) as int / 2);

        let first = &g.mles[0];
        let table_len = first.evals.len();
        let mut half = table_len / 2;
        proof {
            assert(g.mles@[0].wf());
            assert(table_len == pow2(nv as nat));
            if nv > 0 {
                vstd::arithmetic::power2::lemma_pow2_unfold(nv as nat);
                vstd::arithmetic::power2::lemma_pow2_pos((nv - 1) as nat);
                assert(half == pow2((nv - 1) as nat));
            }
        }

        let mut msgs: Vec<ProverMsg> = Vec::new();
        let mut randomness: Vec<u64> = Vec::new();
        let mut round: usize = 0;
        while round < nv
            invariant
                g.wf(),
                q == g.q,
                edim == g.edim,
                nv == g.num_vars,
                degree == g.degree,
                degree < usize::MAX,
                ps == products_view(g.products@),
                transcript.wf_spec(),
                transcript.q == q,
                transcript.edim == edim,
                transcript.cdim == old(transcript).cdim,
                round <= nv,
                tables@.len() == g.mles@.len(),
                forall|k: int| 0 <= k < tables@.len() ==> (#[trigger] tables@[k]).wf(),
                forall|k: int| 0 <= k < tables@.len() ==> (#[trigger] tables@[k]).q == q,
                forall|k: int| 0 <= k < tables@.len() ==> (#[trigger] tables@[k]).edim == edim,
                forall|k: int| 0 <= k < tables@.len() ==> (#[trigger] tables@[k]).num_vars == nv - round,
                round < nv ==> 2 * half == pow2((nv - round) as nat),
                msgs@.len() == round,
                randomness@.len() == round,
                seq_wf(q, randomness@),
                forall|k: int| 0 <= k < round ==> (#[trigger] msgs@[k]).evaluations@.len() == degree + 1,
                forall|k: int| 0 <= k < round ==> forall|j: int| 0 <= j < (#[trigger] msgs@[k]).evaluations@.len()
                    ==> (#[trigger] msgs@[k].evaluations@[j]).wf(),
                forall|k: int| 0 <= k < round ==> forall|j: int| 0 <= j < (#[trigger] msgs@[k]).evaluations@.len()
                    ==> (#[trigger] msgs@[k].evaluations@[j]).q == q,
                forall|k: int| 0 <= k < round ==> forall|j: int| 0 <= j < (#[trigger] msgs@[k]).evaluations@.len()
                    ==> (#[trigger] msgs@[k].evaluations@[j]).dim() == edim as nat,
                full == ({
                    let rest = prove_chain_s(q, edim as nat, ps, tables_view(tables@),
                        transcript.state, (nv - round) as nat, degree as nat, half as int);
                    (msgs@.map_values(|mm: ProverMsg| mm.evaluations@.map_values(|e: RqNtt| e.c@)) + rest.0,
                     randomness@ + rest.1,
                     rest.2)
                }),
            decreases nv - round,
        {
            proof {
                vstd::arithmetic::power2::lemma_pow2_pos((nv - round) as nat);
                assert forall|k: int| 0 <= k < tables@.len()
                    implies 2 * half <= (#[trigger] tables@[k]).evals@.len() by {
                    assert(tables@[k].evals@.len() == pow2((nv - round) as nat));
                };
            }
            let msg = IPForMLSumcheck::prove_round(q, edim, &g.products, &tables, degree, half);
            let ghost st_pre = transcript.state;
            transcript.absorb_elems_inner(&msg);
            let r = transcript.squeeze_inner();
            transcript.absorb_scalar_inner(r);
            let ghost st_next = transcript.state;

            let relem = RqNtt::from_u128(q, edim, r as u128);
            proof {
                vstd::arithmetic::div_mod::lemma_small_mod(r as nat, q as nat);
                assert(relem.c@ == diag_s(edim as nat, r));
            }

            let mut new_tables: Vec<DenseMultilinearExtension> = Vec::new();
            let mut m2: usize = 0;
            while m2 < tables.len()
                invariant
                    q >= 2,
                    relem.wf(),
                    relem.q == q,
                    relem.c@ == diag_s(edim as nat, r),
                    relem.dim() == edim as nat,
                    round < nv,
                    forall|k: int| 0 <= k < tables@.len() ==> (#[trigger] tables@[k]).wf(),
                    forall|k: int| 0 <= k < tables@.len() ==> (#[trigger] tables@[k]).q == q,
                    forall|k: int| 0 <= k < tables@.len() ==> (#[trigger] tables@[k]).edim == edim,
                    forall|k: int| 0 <= k < tables@.len() ==> (#[trigger] tables@[k]).num_vars == nv - round,
                    m2 <= tables@.len(),
                    new_tables@.len() == m2,
                    forall|k: int| 0 <= k < m2 ==> (#[trigger] new_tables@[k]).wf(),
                    forall|k: int| 0 <= k < m2 ==> (#[trigger] new_tables@[k]).q == q,
                    forall|k: int| 0 <= k < m2 ==> (#[trigger] new_tables@[k]).edim == edim,
                    forall|k: int| 0 <= k < m2 ==> (#[trigger] new_tables@[k]).num_vars == nv - round - 1,
                    forall|k: int| 0 <= k < m2 ==> (#[trigger] new_tables@[k]).view_rows()
                        == fix_var_s(q, tables@[k].view_rows(), diag_s(edim as nat, r)),
                decreases tables@.len() - m2,
            {
                proof {
                    vstd::arithmetic::power2::lemma_pow2_pos((nv - round) as nat);
                }
                new_tables.push(tables[m2].fix_variable(&relem));
                m2 = m2 + 1;
            }
            proof {
                assert(tables_view(new_tables@) =~= fix_tables_s(q, edim as nat, tables_view(tables@), r));
            }

            msgs.push(ProverMsg { evaluations: msg });
            randomness.push(r);
            proof {
                let tv = tables_view(tables@);
                let rest = prove_chain_s(q, edim as nat, ps, tv, st_pre,
                    (nv - round) as nat, degree as nat, half as int);
                let m_spec = round_msg_s(q, edim as nat, ps, tv, degree as nat, half as int);
                assert(msg@.map_values(|e: RqNtt| e.c@) == m_spec);
                let rest1 = prove_chain_s(q, edim as nat, ps, fix_tables_s(q, edim as nat, tv, r),
                    st_next, (nv - round - 1) as nat, degree as nat, half as int / 2);
                assert(rest.0 =~= seq![m_spec] + rest1.0);
                assert(rest.1 =~= seq![r] + rest1.1);
                assert(msgs@.map_values(|mm: ProverMsg| mm.evaluations@.map_values(|e: RqNtt| e.c@))
                    =~= msgs@.map_values(|mm: ProverMsg| mm.evaluations@.map_values(|e: RqNtt| e.c@)).drop_last() + seq![m_spec]);
                assert((msgs@.map_values(|mm: ProverMsg| mm.evaluations@.map_values(|e: RqNtt| e.c@)).drop_last() + seq![m_spec]) + rest1.0
                    =~= msgs@.map_values(|mm: ProverMsg| mm.evaluations@.map_values(|e: RqNtt| e.c@)).drop_last() + (seq![m_spec] + rest1.0));
                assert(randomness@ =~= randomness@.drop_last() + seq![r]);
                assert((randomness@.drop_last() + seq![r]) + rest1.1
                    =~= randomness@.drop_last() + (seq![r] + rest1.1));
                vstd::arithmetic::power2::lemma_pow2_unfold((nv - round) as nat);
                assert(half == pow2((nv - round - 1) as nat));
                if round + 1 < nv {
                    vstd::arithmetic::power2::lemma_pow2_unfold((nv - round - 1) as nat);
                    vstd::arithmetic::power2::lemma_pow2_pos((nv - round - 2) as nat);
                    assert(half / 2 == pow2((nv - round - 2) as nat));
                }
            }
            tables = new_tables;
            half = half / 2;
            round = round + 1;
        }
        proof {
            let restf = prove_chain_s(q, edim as nat, ps, tables_view(tables@),
                transcript.state, 0, degree as nat, half as int);
            assert(restf.0 =~= Seq::<Seq<Seq<u64>>>::empty());
            assert(restf.1 =~= Seq::<u64>::empty());
            assert(msgs@.map_values(|mm: ProverMsg| mm.evaluations@.map_values(|e: RqNtt| e.c@)) + restf.0
                =~= msgs@.map_values(|mm: ProverMsg| mm.evaluations@.map_values(|e: RqNtt| e.c@)));
            assert(randomness@ + restf.1 =~= randomness@);
        }
        (Proof(msgs), ProverState { randomness })
    }

    /// Run the sumcheck verifier: re-absorb `nvars` and `degree`, then per
    /// round check the message length and the boolean sum against the
    /// running claim, squeeze and re-absorb the challenge, and interpolate.
    /// `inv` is the ring's table of small scalar inverses.
    pub fn verify_as_subprotocol(transcript: &mut FsTranscript, nvars: usize, degree: usize, claimed_sum: &RqNtt, proof: &Proof, inv: &Vec<u64>) -> (res: Result<SubClaim, SumCheckError>)
        requires
            old(transcript).wf_spec(),
            claimed_sum.wf(),
            claimed_sum.q == old(transcript).q,
            claimed_sum.dim() == old(transcript).edim as nat,
            proof_wf(proof, old(transcript).q, old(transcript).edim as nat),
            inv@.len() > degree,
            seq_wf(old(transcript).q, inv@),
            1 <= degree < usize::MAX,
        ensures
            final(transcript).wf_spec(),
            final(transcript).q == old(transcript).q,
            final(transcript).edim == old(transcript).edim,
            final(transcript).cdim == old(transcript).cdim,
            ({
                let q = old(transcript).q;
                let edim = old(transcript).edim as nat;
                let st0 = init_state_s(q, edim, old(transcript).state, nvars as nat, degree as nat);
                let pv = proof_view(proof);
                &&& (res is Ok <==> pv.len() == nvars
                        && verify_checks_s(q, edim, inv@, pv, st0, claimed_sum.c@, degree as nat))
                &&& (res matches Ok(sub) ==> {
                    let chain = verify_chain_s(q, edim, inv@, pv, st0, claimed_sum.c@);
                    &&& sub.point@.map_values(|e: RqNtt| e.c@) == chain.0
                    &&& sub.expected_evaluation.c@ == chain.1
                    &&& final(transcript).state == chain.2
                    &&& sub.point@.len() == nvars
                    &&& forall|i: int| 0 <= i < sub.point@.len() ==> (#[trigger] sub.point@[i]).wf()
                    &&& forall|i: int| 0 <= i < sub.point@.len() ==> (#[trigger] sub.point@[i]).q == q
                    &&& forall|i: int| 0 <= i < sub.point@.len() ==> (#[trigger] sub.point@[i]).dim() == edim
                    &&& sub.expected_evaluation.wf()
                    &&& sub.expected_evaluation.q == q
                    &&& sub.expected_evaluation.dim() == edim
                })
                &&& (pv.len() != nvars ==> (res matches Err(e) && e is MaxDegreeExceeded))
                &&& (pv.len() == nvars && nvars > 0 && pv[0].len() != degree + 1
                        ==> (res matches Err(e) && e is MaxDegreeExceeded))
                &&& (pv.len() == nvars && nvars > 0 && pv[0].len() == degree + 1
                        && ntt_add_s(q, pv[0][0], pv[0][1]) != claimed_sum.c@
                        ==> (res matches Err(e) && e is SumCheckFailed))
                &&& (pv.len() == nvars
                        && verify_error_kind_s(q, edim, inv@, pv, st0, claimed_sum.c@, degree as nat) == 1
                        ==> (res matches Err(e) && e is MaxDegreeExceeded))
                &&& (pv.len() == nvars
                        && verify_error_kind_s(q, edim, inv@, pv, st0, claimed_sum.c@, degree as nat) == 2
                        ==> (res matches Err(e) && e is SumCheckFailed))
            }),
    {
        let q = transcript.q;
        let edim = transcript.edim;
        let ghost pv = proof_view(proof);
        let nve = RqNtt::from_u128(q, edim, nvars as u128);
        transcript.absorb_inner(&nve);
        let dge = RqNtt::from_u128(q, edim, degree as u128);
        transcript.absorb_inner(&dge);
        let ghost st0 = transcript.state;
        proof {
            assert(st0 == init_state_s(q, edim as nat, old(transcript).state, nvars as nat, degree as nat));
        }

        if proof.0.len() != nvars {
            return Err(SumCheckError::MaxDegreeExceeded);
        }

        let mut expected = claimed_sum.clone_elem();
        let mut point: Vec<RqNtt> = Vec::new();
        let mut i: usize = 0;
        proof {
            assert(pv.subrange(0, pv.len() as int) =~= pv);
            let rest0 = verify_chain_s(q, edim as nat, inv@, pv, st0, claimed_sum.c@);
            assert(point@.map_values(|e: RqNtt| e.c@) + rest0.0 =~= rest0.0);
        }
        while i < nvars
            invariant
                transcript.wf_spec(),
                transcript.q == q,
                transcript.edim == edim,
                transcript.cdim == old(transcript).cdim,
                q == old(transcript).q,
                edim == old(transcript).edim,
                1 <= degree < usize::MAX,
                inv@.len() > degree,
                seq_wf(q, inv@),
                proof_wf(proof, q, edim as nat),
                pv == proof_view(proof),
                pv.len() == nvars,
                proof.0@.len() == nvars,
                claimed_sum.wf(),
                claimed_sum.q == q,
                claimed_sum.dim() == edim as nat,
                st0 == init_state_s(q, edim as nat, old(transcript).state, nvars as nat, degree as nat),
                i <= nvars,
                expected.wf(),
                expected.q == q,
                expected.dim() == edim as nat,
                point@.len() == i,
                forall|k: int| 0 <= k < i ==> (#[trigger] point@[k]).wf(),
                forall|k: int| 0 <= k < i ==> (#[trigger] point@[k]).q == q,
                forall|k: int| 0 <= k < i ==> (#[trigger] point@[k]).dim() == edim as nat,
                // the walk so far agrees with the spec chain
                verify_chain_s(q, edim as nat, inv@, pv, st0, claimed_sum.c@)
                    == ({
                        let rest = verify_chain_s(q, edim as nat, inv@, pv.subrange(i as int, pv.len() as int),
                            transcript.state, expected.c@);
                        (point@.map_values(|e: RqNtt| e.c@) + rest.0, rest.1, rest.2)
                    }),
                verify_checks_s(q, edim as nat, inv@, pv, st0, claimed_sum.c@, degree as nat)
                    == verify_checks_s(q, edim as nat, inv@, pv.subrange(i as int, pv.len() as int),
                        transcript.state, expected.c@, degree as nat),
                verify_error_kind_s(q, edim as nat, inv@, pv, st0, claimed_sum.c@, degree as nat)
                    == verify_error_kind_s(q, edim as nat, inv@, pv.subrange(i as int, pv.len() as int),
                        transcript.state, expected.c@, degree as nat),
                i == 0 ==> expected.c@ == claimed_sum.c@,
                nvars > 0 && i > 0 ==> pv[0].len() == degree + 1
                    && ntt_add_s(q, pv[0][0], pv[0][1]) == claimed_sum.c@,
            decreases nvars - i,
        {
            let ghost suffix = pv.subrange(i as int, pv.len() as int);
            proof {
                assert(suffix.len() > 0);
                assert(suffix[0] == pv[i as int]);
                assert(suffix.subrange(1, suffix.len() as int) =~= pv.subrange(i + 1, pv.len() as int));
            }
            let msg = &proof.0[i];
            proof {
                assert(pv[i as int] == proof.0@[i as int].evaluations@.map_values(|e: RqNtt| e.c@));
            }
            if msg.evaluations.len() != degree + 1 {
                proof {
                    assert(pv[i as int].len() != degree + 1);
                    assert(!verify_checks_s(q, edim as nat, inv@, suffix, transcript.state, expected.c@, degree as nat));
                    assert(verify_error_kind_s(q, edim as nat, inv@, suffix, transcript.state, expected.c@, degree as nat) == 1);
                }
                return Err(SumCheckError::MaxDegreeExceeded);
            }
            proof {
                assert(proof.0@[i as int].evaluations@[0].wf());
                assert(proof.0@[i as int].evaluations@[1].wf());
                assert(proof.0@[i as int].evaluations@[0].q == q);
                assert(proof.0@[i as int].evaluations@[1].q == q);
                assert(proof.0@[i as int].evaluations@[0].dim() == edim as nat);
                assert(proof.0@[i as int].evaluations@[1].dim() == edim as nat);
            }
            let got = msg.evaluations[0].add(&msg.evaluations[1]);
            proof {
                assert(pv[i as int][0] == msg.evaluations@[0].c@);
                assert(pv[i as int][1] == msg.evaluations@[1].c@);
                assert(got.c@ == ntt_add_s(q, pv[i as int][0], pv[i as int][1]));
            }
            if !got.equals(&expected) {
                proof {
                    assert(pv[i as int][0] == msg.evaluations@[0].c@);
                    assert(pv[i as int][1] == msg.evaluations@[1].c@);
                    assert(ntt_add_s(q, pv[i as int][0], pv[i as int][1]) != expected.c@);
                    assert(!verify_checks_s(q, edim as nat, inv@, suffix, transcript.state, expected.c@, degree as nat));
                    assert(verify_error_kind_s(q, edim as nat, inv@, suffix, transcript.state, expected.c@, degree as nat) == 2);
                }
                return Err(SumCheckError::SumCheckFailed(expected, got));
            }
            let ghost st_pre = transcript.state;
            transcript.absorb_elems_inner(&msg.evaluations);
            proof {
                assert(msg.evaluations@.map_values(|e: RqNtt| e.c@) == pv[i as int]);
            }
            let r = transcript.squeeze_inner();
            transcript.absorb_scalar_inner(r);
            let relem = RqNtt::from_u128(q, edim, r as u128);
            proof {
                vstd::arithmetic::div_mod::lemma_small_mod(r as nat, q as nat);
                assert(relem.c@ == diag_s(edim as nat, r));
            }
            let ghost expected_old = expected;
            expected = interpolate_uni_poly(q, edim, inv, &msg.evaluations, &relem);
            point.push(relem);
            proof {
                // align the exec step with one unfolding of the spec walk
                let st_a = absorb_elems_s(q, st_pre, pv[i as int]);
                assert(r == challenge_next_s(q, st_a));
                assert(transcript.state == absorb_coords_s(q, r, diag_s(edim as nat, r)));
                assert(expected.c@ == interpolate_s(q, edim as nat, inv@, pv[i as int], diag_s(edim as nat, r)));
                assert(verify_checks_s(q, edim as nat, inv@, suffix, st_pre, expected_old.c@, degree as nat)
                    == verify_checks_s(q, edim as nat, inv@, pv.subrange(i + 1, pv.len() as int),
                        transcript.state, expected.c@, degree as nat));
                assert(verify_error_kind_s(q, edim as nat, inv@, suffix, st_pre, expected_old.c@, degree as nat)
                    == verify_error_kind_s(q, edim as nat, inv@, pv.subrange(i + 1, pv.len() as int),
                        transcript.state, expected.c@, degree as nat));
                assert(point@.map_values(|e: RqNtt| e.c@)
                    =~= point@.map_values(|e: RqNtt| e.c@).drop_last() + seq![diag_s(edim as nat, r)]);
                let rest1 = verify_chain_s(q, edim as nat, inv@, pv.subrange(i + 1, pv.len() as int),
                    transcript.state, expected.c@);
                assert((point@.map_values(|e: RqNtt| e.c@).drop_last() + seq![diag_s(edim as nat, r)]) + rest1.0
                    =~= point@.map_values(|e: RqNtt| e.c@).drop_last() + (seq![diag_s(edim as nat, r)] + rest1.0));
            }
            i = i + 1;
        }
        proof {
            let restf = verify_chain_s(q, edim as nat, inv@, pv.subrange(pv.len() as int, pv.len() as int),
                transcript.state, expected.c@);
            assert(pv.subrange(pv.len() as int, pv.len() as int) =~= Seq::<Seq<Seq<u64>>>::empty());
            assert(restf.0 =~= Seq::<Seq<u64>>::empty());
            assert(point@.map_values(|e: RqNtt| e.c@) + restf.0 =~= point@.map_values(|e: RqNtt| e.c@));
        }
        Ok(SubClaim { point, expected_evaluation: expected })
    }
}

/// The factor values at hypercube point `x`: entry `m` is `tables[m][x]`.
pub open spec fn hyper_point_vals_s(tables: Seq<Seq<Seq<u64>>>, x: int) -> Seq<Seq<u64>> {
    Seq::new(tables.len(), |m: int| tables[m][x])
}

/// The sum of the combination function over the first `n` hypercube points.
pub open spec fn hyper_sum_s(q: u64, edim: nat, products: Seq<(Seq<u64>, Seq<(usize, u64)>)>, tables: Seq<Seq<Seq<u64>>>, n: int) -> Seq<u64>
    decreases n,
{
    if n <= 0 {
        diag_s(edim, 0u64)
    } else {
        ntt_add_s(q,
            hyper_sum_s(q, edim, products, tables, n - 1),
            comb_s(q, edim, products, hyper_point_vals_s(tables, n - 1)))
    }
}

/// Every table row is a well-formed ring element of dimension `edim`.
pub open spec fn tables_rows_wf(q: u64, edim: nat, tables: Seq<Seq<Seq<u64>>>, len: nat) -> bool {
    forall|m: int, x: int| 0 <= m < tables.len() && 0 <= x < len
        ==> (#[trigger] tables[m][x]).len() == edim && seq_wf(q, tables[m][x])
}

/// The combination function keeps the ring dimension.
proof fn lemma_comb_len(q: u64, edim: nat, products: Seq<(Seq<u64>, Seq<(usize, u64)>)>, vals: Seq<Seq<u64>>)
    ensures
        comb_s(q, edim, products, vals).len() == edim,
    decreases products.len(),
{
    if products.len() > 0 {
        lemma_comb_len(q, edim, products.drop_last(), vals);
    }
}

/// Coordinate-wise rearrangement: `(A + a) + (B + b) == (A + B) + (a + b)`.
proof fn lemma_add_shuffle_rows(q: u64, a1: Seq<u64>, a2: Seq<u64>, b1: Seq<u64>, b2: Seq<u64>, edim: nat)
    requires
        q >= 2,
        a1.len() == edim,
        a2.len() == edim,
        b1.len() == edim,
        b2.len() == edim,
    ensures
        ntt_add_s(q, ntt_add_s(q, a1, a2), ntt_add_s(q, b1, b2))
            == ntt_add_s(q, ntt_add_s(q, a1, b1), ntt_add_s(q, a2, b2)),
{
    assert forall|i: int| 0 <= i < edim implies
        ntt_add_s(q, ntt_add_s(q, a1, a2), ntt_add_s(q, b1, b2))[i]
            == ntt_add_s(q, ntt_add_s(q, a1, b1), ntt_add_s(q, a2, b2))[i] by {
        crate::zq::lemma_zq_add_shuffle(q, a1[i], a2[i], b1[i], b2[i]);
    }
    assert(ntt_add_s(q, ntt_add_s(q, a1, a2), ntt_add_s(q, b1, b2))
        =~= ntt_add_s(q, ntt_add_s(q, a1, b1), ntt_add_s(q, a2, b2)));
}

/// At `t = 0` the round values are the even hypercube points.
proof fn lemma_round_vals_zero(q: u64, edim: nat, tables: Seq<Seq<Seq<u64>>>, b: int, len: nat)
    requires
        q >= 2,
        tables_rows_wf(q, edim, tables, len),
        0 <= 2 * b + 1 < len,
    ensures
        round_point_vals_s(q, edim, tables, 0, b) == hyper_point_vals_s(tables, 2 * b),
{
    assert forall|m: int| 0 <= m < tables.len() implies
        round_point_vals_s(q, edim, tables, 0, b)[m] == hyper_point_vals_s(tables, 2 * b)[m] by {
        let lo = tables[m][2 * b];
        let hi = tables[m][2 * b + 1];
        assert forall|i: int| 0 <= i < edim implies
            round_point_vals_s(q, edim, tables, 0, b)[m][i] == lo[i] by {
            vstd::arithmetic::div_mod::lemma_small_mod(0nat, q as nat);
            let diff = crate::zq::zq_sub(q, hi[i], lo[i]);
            crate::zq::lemma_zq_mul_zero(q, diff);
            crate::zq::lemma_zq_mul_comm(q, 0u64, diff);
            vstd::arithmetic::div_mod::lemma_small_mod(lo[i] as nat, q as nat);
        }
        assert(round_point_vals_s(q, edim, tables, 0, b)[m] =~= lo);
    }
    assert(round_point_vals_s(q, edim, tables, 0, b) =~= hyper_point_vals_s(tables, 2 * b));
}

/// At `t = 1` the round values are the odd hypercube points.
proof fn lemma_round_vals_one(q: u64, edim: nat, tables: Seq<Seq<Seq<u64>>>, b: int, len: nat)
    requires
        q >= 2,
        tables_rows_wf(q, edim, tables, len),
        0 <= 2 * b + 1 < len,
    ensures
        round_point_vals_s(q, edim, tables, 1, b) == hyper_point_vals_s(tables, 2 * b + 1),
{
    assert forall|m: int| 0 <= m < tables.len() implies
        round_point_vals_s(q, edim, tables, 1, b)[m] == hyper_point_vals_s(tables, 2 * b + 1)[m] by {
        let lo = tables[m][2 * b];
        let hi = tables[m][2 * b + 1];
        assert forall|i: int| 0 <= i < edim implies
            round_point_vals_s(q, edim, tables, 1, b)[m][i] == hi[i] by {
            let qi = q as int;
            vstd::arithmetic::div_mod::lemma_small_mod(1nat, q as nat);
            let diff = crate::zq::zq_sub(q, hi[i], lo[i]);
            vstd::arithmetic::div_mod::lemma_mod_bound((hi[i] - lo[i]) as int, qi);
            // 1 * diff == diff
            assert(crate::zq::zq_mul(q, 1u64, diff) == diff) by {
                assert(1 as int * diff as int == diff as int) by (nonlinear_arith);
                vstd::arithmetic::div_mod::lemma_small_mod(diff as nat, q as nat);
            };
            // lo + (hi - lo) == hi modulo q
            vstd::arithmetic::div_mod::lemma_add_mod_noop(lo[i] as int, (hi[i] - lo[i]) as int, qi);
            vstd::arithmetic::div_mod::lemma_small_mod(lo[i] as nat, q as nat);
            vstd::arithmetic::div_mod::lemma_small_mod(hi[i] as nat, q as nat);
        }
        assert(round_point_vals_s(q, edim, tables, 1, b)[m] =~= hi);
    }
    assert(round_point_vals_s(q, edim, tables, 1, b) =~= hyper_point_vals_s(tables, 2 * b + 1));
}

/// The two boolean evaluations of the first round polynomial add up to
/// the sum of the combination function over the whole hypercube.  This
/// is the completeness half of the claimed-sum check: the sum a freshly
/// generated proof claims is the true sum.
pub proof fn lemma_first_round_full_sum(q: u64, edim: nat, products: Seq<(Seq<u64>, Seq<(usize, u64)>)>, tables: Seq<Seq<Seq<u64>>>, half: int, len: nat)
    requires
        q >= 2,
        tables_rows_wf(q, edim, tables, len),
        0 <= 2 * half <= len,
    ensures
        ntt_add_s(q,
            round_sum_s(q, edim, products, tables, 0, half),
            round_sum_s(q, edim, products, tables, 1, half))
            == hyper_sum_s(q, edim, products, tables, 2 * half),
    decreases half,
{
    if half <= 0 {
        assert forall|i: int| 0 <= i < edim implies
            ntt_add_s(q, diag_s(edim, 0u64), diag_s(edim, 0u64))[i] == diag_s(edim, 0u64)[i] by {
            vstd::arithmetic::div_mod::lemma_small_mod(0nat, q as nat);
        }
        assert(ntt_add_s(q, round_sum_s(q, edim, products, tables, 0, half),
            round_sum_s(q, edim, products, tables, 1, half))
            =~= hyper_sum_s(q, edim, products, tables, 2 * half));
    } else {
        lemma_first_round_full_sum(q, edim, products, tables, half - 1, len);
        lemma_round_vals_zero(q, edim, tables, half - 1, len);
        lemma_round_vals_one(q, edim, tables, half - 1, len);
        let a1 = round_sum_s(q, edim, products, tables, 0, half - 1);
        let a2 = comb_s(q, edim, products, hyper_point_vals_s(tables, 2 * half - 2));
        let b1 = round_sum_s(q, edim, products, tables, 1, half - 1);
        let b2 = comb_s(q, edim, products, hyper_point_vals_s(tables, 2 * half - 1));
        lemma_round_sum_len(q, edim, products, tables, 0, half - 1);
        lemma_round_sum_len(q, edim, products, tables, 1, half - 1);
        lemma_comb_len(q, edim, products, hyper_point_vals_s(tables, 2 * half - 2));
        lemma_comb_len(q, edim, products, hyper_point_vals_s(tables, 2 * half - 1));
        lemma_add_shuffle_rows(q, a1, a2, b1, b2, edim);
        // fold the two fresh points into the hypercube sum
        lemma_hyper_sum_len(q, edim, products, tables, 2 * half - 2);
        lemma_add_assoc_rows(q, ntt_add_s(q, a1, b1), a2, b2, edim);
        assert(hyper_sum_s(q, edim, products, tables, 2 * half - 1)
            == ntt_add_s(q, hyper_sum_s(q, edim, products, tables, 2 * half - 2), a2));
        assert(hyper_sum_s(q, edim, products, tables, 2 * half)
            == ntt_add_s(q, hyper_sum_s(q, edim, products, tables, 2 * half - 1), b2));
        assert(hyper_sum_s(q, edim, products, tables, 2 * half)
            == ntt_add_s(q, ntt_add_s(q, hyper_sum_s(q, edim, products, tables, 2 * half - 2), a2), b2));
    }
}

/// A partial round sum keeps the ring dimension.
proof fn lemma_round_sum_len(q: u64, edim: nat, products: Seq<(Seq<u64>, Seq<(usize, u64)>)>, tables: Seq<Seq<Seq<u64>>>, t: u64, n: int)
    ensures
        round_sum_s(q, edim, products, tables, t, n).len() == edim,
    decreases n,
{
    if n > 0 {
        lemma_round_sum_len(q, edim, products, tables, t, n - 1);
        lemma_comb_len(q, edim, products, round_point_vals_s(q, edim, tables, t, n - 1));
    }
}

/// A partial hypercube sum keeps the ring dimension.
proof fn lemma_hyper_sum_len(q: u64, edim: nat, products: Seq<(Seq<u64>, Seq<(usize, u64)>)>, tables: Seq<Seq<Seq<u64>>>, n: int)
    ensures
        hyper_sum_s(q, edim, products, tables, n).len() == edim,
    decreases n,
{
    if n > 0 {
        lemma_hyper_sum_len(q, edim, products, tables, n - 1);
        lemma_comb_len(q, edim, products, hyper_point_vals_s(tables, n - 1));
    }
}

/// Coordinate-wise associativity of the ring sum.
proof fn lemma_add_assoc_rows(q: u64, a: Seq<u64>, b: Seq<u64>, c: Seq<u64>, edim: nat)
    requires
        q >= 2,
        a.len() == edim,
        b.len() == edim,
        c.len() == edim,
    ensures
        ntt_add_s(q, a, ntt_add_s(q, b, c)) == ntt_add_s(q, ntt_add_s(q, a, b), c),
{
    assert forall|i: int| 0 <= i < edim implies
        ntt_add_s(q, a, ntt_add_s(q, b, c))[i] == ntt_add_s(q, ntt_add_s(q, a, b), c)[i] by {
        let qi = q as int;
        vstd::arithmetic::div_mod::lemma_mod_bound((b[i] + c[i]) as int, qi);
        vstd::arithmetic::div_mod::lemma_mod_bound((a[i] + b[i]) as int, qi);
        vstd::arithmetic::div_mod::lemma_add_mod_noop_right(a[i] as int, (b[i] + c[i]) as int, qi);
        vstd::arithmetic::div_mod::lemma_add_mod_noop_right(c[i] as int, (a[i] + b[i]) as int, qi);
    }
    assert(ntt_add_s(q, a, ntt_add_s(q, b, c)) =~= ntt_add_s(q, ntt_add_s(q, a, b), c));
}

/// The sum a freshly generated proof claims is the true sum: the first
/// message of the prover's run evaluates, at the two boolean points, to
/// values adding up to the combination function summed over the whole
/// hypercube.  Together with the verifier's first-round check, a proof
/// can only be verified against this true sum.
pub proof fn lemma_prover_claims_true_sum(q: u64, edim: nat, products: Seq<(Seq<u64>, Seq<(usize, u64)>)>, tables: Seq<Seq<Seq<u64>>>, st: u64, rounds: nat, degree: nat, half: int, len: nat)
    requires
        q >= 2,
        rounds >= 1,
        degree >= 1,
        tables_rows_wf(q, edim, tables, len),
        0 <= 2 * half <= len,
    ensures
        ({
            let chain = prove_chain_s(q, edim, products, tables, st, rounds, degree, half);
            ntt_add_s(q, chain.0[0][0], chain.0[0][1])
                == hyper_sum_s(q, edim, products, tables, 2 * half)
        }),
{
    let chain = prove_chain_s(q, edim, products, tables, st, rounds, degree, half);
    let msg = round_msg_s(q, edim, products, tables, degree, half);
    assert(chain.0[0] == msg);
    assert(msg[0] == round_sum_s(q, edim, products, tables, 0u64, half));
    assert(msg[1] == round_sum_s(q, edim, products, tables, 1u64, half));
    lemma_first_round_full_sum(q, edim, products, tables, half, len);
}

} // verus!
