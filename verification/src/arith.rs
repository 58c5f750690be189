//! The constraint-system shapes the folding layer works on: the CCS
//! shape, the linearized instance LCCCS, and the prover witness.

use vstd::prelude::*;
use vstd::arithmetic::power2::pow2;
use crate::ring::{RqNtt, RingParams, diag_s, icrt_s};
use crate::mle::DenseMultilinearExtension;
use crate::commitment::{Commitment, elems_wf, elems_view};

verus! {

/// Errors of the constraint-system layer.
#[derive(Debug)]
pub enum CSError {
    /// The CCS shape does not meet the size bound: carries the number of
    /// constraints, the witness length and the limb count.
    InvalidSizeBounds(usize, usize, usize),
}

/// The shape of a customizable constraint system.  The folding layer
/// reads only the sizes; the defining matrices enter through their
/// precomputed `Mz` multilinear extensions.
pub struct CCS {
    /// Number of constraints; must be a power of two.
    pub m: usize,
    /// Witness length, public input and the constant one included.
    pub n: usize,
    /// Public-input length.
    pub l: usize,
    /// Number of sumcheck variables, `log2(m)`.
    pub s: usize,
    /// Number of constraint matrices.
    pub t: usize,
}

impl CCS {
    pub open spec fn wf(&self) -> bool {
        &&& self.m == pow2(self.s as nat)
        &&& self.n > self.l
    }
}

/// `y` is a power of two.
pub open spec fn is_pow2_s(y: nat) -> bool {
    exists|k: nat| y == pow2(k)
}

/// Decide whether `m` is a power of two.
pub fn is_power_of_two(m: u64) -> (r: bool)
    ensures
        r == is_pow2_s(m as nat),
{
    if m == 0 {
        proof {
            assert forall|k: nat| 0 != pow2(k) by {
                vstd::arithmetic::power2::lemma_pow2_pos(k);
            }
        }
        return false;
    }
    let mut p: u64 = 1;
    let ghost mut k: nat = 0nat;
    proof {
        vstd::arithmetic::power2::lemma2_to64();
    }
    while p < m
        invariant
            m >= 1,
            p >= 1,
            p == pow2(k),
            k > 0 ==> pow2((k - 1) as nat) < m,
        decreases 2 * m - p,
    {
        if p > u64::MAX / 2 {
            proof {
                assert forall|j: nat| m as nat != pow2(j) by {
                    if m as nat == pow2(j) {
                        assert(j > k) by {
                            if j < k {
                                vstd::arithmetic::power2::lemma_pow2_strictly_increases(j, k);
                            }
                        };
                        if k + 1 < j {
                            vstd::arithmetic::power2::lemma_pow2_strictly_increases(k + 1, j);
                        }
                        vstd::arithmetic::power2::lemma_pow2_unfold((k + 1) as nat);
                    }
                }
            }
            return false;
        }
        p = p * 2;
        proof {
            k = k + 1nat;
            vstd::arithmetic::power2::lemma_pow2_unfold(k);
        }
    }
    if p == m {
        proof {
            assert(is_pow2_s(m as nat));
        }
        true
    } else {
        proof {
            // p > m after doubling: m lies strictly between two powers
            assert(k > 0);
            assert forall|j: nat| m as nat != pow2(j) by {
                if m as nat == pow2(j) {
                    if j < k {
                        if j < k - 1 {
                            vstd::arithmetic::power2::lemma_pow2_strictly_increases(j, (k - 1) as nat);
                        }
                        assert(pow2(j) <= pow2((k - 1) as nat));
                    } else if j > k {
                        vstd::arithmetic::power2::lemma_pow2_strictly_increases(k, j);
                    }
                }
            }
        }
        false
    }
}

/// One prover witness: the vector `f` in NTT form, plus the lazily
/// materialized table of `f_hat` multilinear extensions (one per
/// coefficient slot of the ring).  The table is moved out exactly once
/// by the folding prover.
pub struct Witness {
    pub f: Vec<RqNtt>,
    pub f_hat: Option<Vec<DenseMultilinearExtension>>,
}

/// The `f_hat` extensions of a witness: extension `k` evaluates, on the
/// hypercube point `j`, to the constant embedding of coefficient `k` of
/// the coefficient representation of `f[j]`.
pub open spec fn f_hat_spec(p: RingParams, f: Seq<Seq<u64>>, k: int, j: int) -> Seq<u64> {
    diag_s(p.e as nat, icrt_s(p, f[j])[k])
}

impl Witness {
    pub open spec fn wf(&self, q: u64, edim: nat, s: nat) -> bool {
        &&& elems_wf(self.f@, q, edim)
        &&& self.f@.len() == pow2(s)
        &&& self.f_hat matches Some(fh) ==> {
            &&& fh@.len() > 0
            &&& forall|k: int| 0 <= k < fh@.len() ==> (#[trigger] fh@[k]).wf()
            &&& forall|k: int| 0 <= k < fh@.len() ==> (#[trigger] fh@[k]).q == q
            &&& forall|k: int| 0 <= k < fh@.len() ==> (#[trigger] fh@[k]).edim == edim
            &&& forall|k: int| 0 <= k < fh@.len() ==> (#[trigger] fh@[k]).num_vars == s
        }
    }

    /// Build a witness from its NTT-form vector, materializing the
    /// `f_hat` table through the NTT-to-coefficient map.
    pub fn from_f(params: &RingParams, s: usize, f: Vec<RqNtt>) -> (r: Witness)
        requires
            params.wf(),
            elems_wf(f@, params.q, params.e as nat),
            f@.len() == pow2(s as nat),
            f@.len() >= 1,
        ensures
            r.wf(params.q, params.e as nat, s as nat),
            r.f@ == f@,
            r.f_hat matches Some(fh) && fh@.len() == params.d,
            r.f_hat matches Some(fh) ==> forall|k: int, j: int|
                0 <= k < params.d && 0 <= j < f@.len()
                    ==> (#[trigger] fh@[k].view_rows()[j]) == f_hat_spec(*params, elems_view(f@), k, j),
    {
        let q = params.q;
        let edim = params.e;
        let n = f.len();
        // coefficient forms of all entries
        let mut coeffs: Vec<Vec<u64>> = Vec::new();
        let mut j: usize = 0;
        while j < n
            invariant
                params.wf(),
                q == params.q,
                edim == params.e,
                elems_wf(f@, q, edim as nat),
                n == f@.len(),
                j <= n,
                coeffs@.len() == j,
                forall|a: int| 0 <= a < j ==> (#[trigger] coeffs@[a])@ == icrt_s(*params, f@[a].c@),
                forall|a: int| 0 <= a < j ==> (#[trigger] coeffs@[a])@.len() == params.d,
                forall|a: int| 0 <= a < j ==> crate::ring::seq_wf(q, (#[trigger] coeffs@[a])@),
            decreases n - j,
        {
            let c = params.icrt(&f[j]);
            coeffs.push(c.c);
            j = j + 1;
        }
        let mut fh: Vec<DenseMultilinearExtension> = Vec::new();
        let mut k: usize = 0;
        while k < params.d
            invariant
                params.wf(),
                q == params.q,
                edim == params.e,
                elems_wf(f@, q, edim as nat),
                n == f@.len(),
                n == pow2(s as nat),
                coeffs@.len() == n,
                forall|a: int| 0 <= a < n ==> (#[trigger] coeffs@[a])@ == icrt_s(*params, f@[a].c@),
                forall|a: int| 0 <= a < n ==> (#[trigger] coeffs@[a])@.len() == params.d,
                forall|a: int| 0 <= a < n ==> crate::ring::seq_wf(q, (#[trigger] coeffs@[a])@),
                k <= params.d,
                fh@.len() == k,
                forall|a: int| 0 <= a < k ==> (#[trigger] fh@[a]).wf(),
                forall|a: int| 0 <= a < k ==> (#[trigger] fh@[a]).q == q,
                forall|a: int| 0 <= a < k ==> (#[trigger] fh@[a]).edim == edim,
                forall|a: int| 0 <= a < k ==> (#[trigger] fh@[a]).num_vars == s,
                forall|a: int, j2: int| 0 <= a < k && 0 <= j2 < n
                    ==> (#[trigger] fh@[a].view_rows()[j2])
                        == f_hat_spec(*params, elems_view(f@), a, j2),
            decreases params.d - k,
        {
            let mut evals: Vec<RqNtt> = Vec::new();
            let mut j2: usize = 0;
            while j2 < n
                invariant
                    params.wf(),
                    q == params.q,
                    edim == params.e,
                    elems_wf(f@, q, edim as nat),
                    n == f@.len(),
                    coeffs@.len() == n,
                    forall|a: int| 0 <= a < n ==> (#[trigger] coeffs@[a])@ == icrt_s(*params, f@[a].c@),
                    forall|a: int| 0 <= a < n ==> (#[trigger] coeffs@[a])@.len() == params.d,
                    forall|a: int| 0 <= a < n ==> crate::ring::seq_wf(q, (#[trigger] coeffs@[a])@),
                    k < params.d,
                    j2 <= n,
                    evals@.len() == j2,
                    forall|a: int| 0 <= a < j2 ==> (#[trigger] evals@[a]).wf(),
                    forall|a: int| 0 <= a < j2 ==> (#[trigger] evals@[a]).q == q,
                    forall|a: int| 0 <= a < j2 ==> (#[trigger] evals@[a]).dim() == edim as nat,
                    forall|a: int| 0 <= a < j2 ==> (#[trigger] evals@[a]).c@
                        == f_hat_spec(*params, elems_view(f@), k as int, a),
                decreases n - j2,
            {
                let v = coeffs[j2][k];
                let e = RqNtt::from_u128(q, edim, v as u128);
                proof {
                    vstd::arithmetic::div_mod::lemma_small_mod(v as nat, q as nat);
                    assert(elems_view(f@)[j2 as int] == f@[j2 as int].c@);
                }
                evals.push(e);
                j2 = j2 + 1;
            }
            fh.push(DenseMultilinearExtension::from_evaluations(q, edim, s, evals));
            k = k + 1;
        }
        Witness { f, f_hat: Some(fh) }
    }

    /// Move the `f_hat` table out of the witness.  The table can be taken
    /// exactly once; the witness keeps its `f` vector.
    pub fn take_f_hat(&mut self) -> (r: Vec<DenseMultilinearExtension>)
        requires
            old(self).f_hat is Some,
        ensures
            final(self).f_hat is None,
            final(self).f@ == old(self).f@,
            r@ == old(self).f_hat->0@,
    {
        let fh = self.f_hat.take();
        match fh {
            Some(v) => v,
            None => {
                proof {
                    assert(false);
                }
                unreached()
            },
        }
    }
}

/// A linearized CCS instance.
pub struct LCCCS {
    /// The evaluation point.
    pub r: Vec<RqNtt>,
    /// Evaluations of the witness `f_hat` extensions at `r`.
    pub v: Vec<RqNtt>,
    /// Commitment to the witness.
    pub cm: Commitment,
    /// Evaluations of the constraint extensions at `r`.
    pub u: Vec<RqNtt>,
    /// The public input.
    pub x_w: Vec<RqNtt>,
    /// The extension-degree hash value, split off the tail of `x`.
    pub h: RqNtt,
}

impl LCCCS {
    pub open spec fn wf(&self, q: u64, edim: nat) -> bool {
        &&& elems_wf(self.r@, q, edim)
        &&& elems_wf(self.v@, q, edim)
        &&& elems_wf(self.cm.cm@, q, edim)
        &&& elems_wf(self.u@, q, edim)
        &&& elems_wf(self.x_w@, q, edim)
        &&& self.h.wf()
        &&& self.h.q == q
        &&& self.h.dim() == edim
    }

    /// Field-by-field equality of two instances.
    pub fn equals(&self, other: &LCCCS) -> (r: bool)
        ensures
            r == (elems_view(self.r@) == elems_view(other.r@)
                && elems_view(self.v@) == elems_view(other.v@)
                && (elems_view(self.cm.cm@) == elems_view(other.cm.cm@)
                    && self.cm.cm@.len() == other.cm.cm@.len()
                    && (forall|i: int| 0 <= i < self.cm.cm@.len()
                        ==> (#[trigger] self.cm.cm@[i]).q == other.cm.cm@[i].q))
                && elems_view(self.u@) == elems_view(other.u@)
                && elems_view(self.x_w@) == elems_view(other.x_w@)
                && (self.h.q == other.h.q && self.h.c@ == other.h.c@)),
    {
        vecs_equal(&self.r, &other.r)
            && vecs_equal(&self.v, &other.v)
            && self.cm.equals(&other.cm)
            && vecs_equal(&self.u, &other.u)
            && vecs_equal(&self.x_w, &other.x_w)
            && self.h.equals(&other.h)
    }
}

/// Structural equality of two ring-element vectors.
pub fn vecs_equal(a: &Vec<RqNtt>, b: &Vec<RqNtt>) -> (r: bool)
    ensures
        r == (elems_view(a@) == elems_view(b@)),
{
    if a.len() != b.len() {
        proof {
            assert(elems_view(a@).len() != elems_view(b@).len());
        }
        return false;
    }
    let mut i: usize = 0;
    while i < a.len()
        invariant
            a@.len() == b@.len(),
            i <= a@.len(),
            forall|k: int| 0 <= k < i ==> (#[trigger] a@[k]).c@ == b@[k].c@,
        decreases a@.len() - i,
    {
        if a[i].c.len() != b[i].c.len() {
            proof {
                if elems_view(a@) == elems_view(b@) {
                    assert(elems_view(a@)[i as int] == elems_view(b@)[i as int]);
                }
            }
            return false;
        }
        let mut j: usize = 0;
        while j < a[i].c.len()
            invariant
                a@.len() == b@.len(),
                i < a@.len(),
                a@[i as int].c@.len() == b@[i as int].c@.len(),
                j <= a@[i as int].c@.len(),
                forall|k: int| 0 <= k < j ==> a@[i as int].c@[k] == b@[i as int].c@[k],
            decreases a@[i as int].c@.len() - j,
        {
            if a[i].c[j] != b[i].c[j] {
                proof {
                    if elems_view(a@) == elems_view(b@) {
                        assert(elems_view(a@)[i as int] == elems_view(b@)[i as int]);
                    }
                }
                return false;
            }
            j = j + 1;
        }
        proof {
            assert(a@[i as int].c@ =~= b@[i as int].c@);
        }
        i = i + 1;
    }
    proof {
        assert(elems_view(a@) =~= elems_view(b@));
    }
    true
}

} // verus!
