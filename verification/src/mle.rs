//! Dense multilinear extensions over the NTT-form ring.
//!
//! An MLE over `n` variables is stored as its `2^n` evaluations on the
//! boolean hypercube; index bit `j` (least significant first) carries
//! variable `j + 1`.  Fixing the first variable at `r` maps adjacent
//! pairs through `low + r * (high - low)`; evaluating at a point fixes
//! the variables one by one.

use vstd::prelude::*;
use vstd::arithmetic::power2::pow2;
use crate::ring::{RqNtt, seq_wf, ntt_add_s, ntt_mul_s, diag_s};
use crate::zq::{zq_sub, zq_add, zq_mul};

verus! {

/// Coordinate-wise difference of two ring elements.
pub open spec fn ntt_sub_s(q: u64, a: Seq<u64>, b: Seq<u64>) -> Seq<u64> {
    Seq::new(a.len(), |i: int| zq_sub(q, a[i], b[i]))
}

/// All rows are well-formed ring elements of dimension `edim`.
pub open spec fn rows_wf(q: u64, rows: Seq<Seq<u64>>, edim: nat) -> bool {
    forall|i: int| 0 <= i < rows.len()
        ==> (#[trigger] rows[i]).len() == edim && seq_wf(q, rows[i])
}

/// One step of multilinear evaluation: fix the first variable at `r`.
pub open spec fn fix_var_s(q: u64, a: Seq<Seq<u64>>, r: Seq<u64>) -> Seq<Seq<u64>> {
    Seq::new(a.len() / 2, |i: int| ntt_add_s(q, a[2 * i], ntt_mul_s(q, r, ntt_sub_s(q, a[2 * i + 1], a[2 * i]))))
}

/// Full multilinear evaluation at a point, first variable first.
pub open spec fn eval_mle_s(q: u64, a: Seq<Seq<u64>>, point: Seq<Seq<u64>>) -> Seq<u64>
    decreases point.len(),
{
    if point.len() == 0 {
        a[0]
    } else {
        eval_mle_s(q, fix_var_s(q, a, point[0]), point.subrange(1, point.len() as int))
    }
}

/// The table of `eq(r, x)` over the hypercube: entry `x` holds
/// `prod_k (r_k x_k + (1 - r_k)(1 - x_k))`.
pub open spec fn eq_table_s(q: u64, edim: nat, rs: Seq<Seq<u64>>) -> Seq<Seq<u64>>
    decreases rs.len(),
{
    if rs.len() == 0 {
        seq![diag_s(edim, 1u64)]
    } else {
        let prev = eq_table_s(q, edim, rs.drop_last());
        let r = rs.last();
        prev.map_values(|e: Seq<u64>| ntt_mul_s(q, ntt_sub_s(q, diag_s(edim, 1u64), r), e))
            + prev.map_values(|e: Seq<u64>| ntt_mul_s(q, r, e))
    }
}

/// `eq(a, b) = prod_k (a_k b_k + (1 - a_k)(1 - b_k))` over ring elements.
pub open spec fn eq_eval_s(q: u64, a: Seq<Seq<u64>>, b: Seq<Seq<u64>>, edim: nat) -> Seq<u64>
    decreases a.len(),
{
    if a.len() == 0 {
        diag_s(edim, 1u64)
    } else {
        ntt_mul_s(q, eq_eval_s(q, a.drop_last(), b.drop_last(), edim),
            ntt_add_s(q,
                ntt_mul_s(q, a.last(), b.last()),
                ntt_mul_s(q,
                    ntt_sub_s(q, diag_s(edim, 1u64), a.last()),
                    ntt_sub_s(q, diag_s(edim, 1u64), b.last()))))
    }
}

/// A multilinear extension given by its evaluations on the hypercube.
pub struct DenseMultilinearExtension {
    pub q: u64,
    /// NTT dimension of each evaluation.
    pub edim: usize,
    pub num_vars: usize,
    pub evals: Vec<RqNtt>,
}

impl DenseMultilinearExtension {
    pub open spec fn wf(&self) -> bool {
        &&& self.q >= 2
        &&& self.evals@.len() == pow2(self.num_vars as nat)
        &&& forall|i: int| 0 <= i < self.evals@.len() ==> (#[trigger] self.evals@[i]).wf()
        &&& forall|i: int| 0 <= i < self.evals@.len() ==> (#[trigger] self.evals@[i]).q == self.q
        &&& forall|i: int| 0 <= i < self.evals@.len() ==> (#[trigger] self.evals@[i]).dim() == self.edim as nat
    }

    /// The evaluation table as a mathematical sequence.
    pub open spec fn view_rows(&self) -> Seq<Seq<u64>> {
        self.evals@.map_values(|e: RqNtt| e.c@)
    }

    /// The all-zero extension.
    pub fn zero(q: u64, edim: usize, num_vars: usize, len: usize) -> (r: DenseMultilinearExtension)
        requires
            q >= 2,
            len == pow2(num_vars as nat),
        ensures
            r.wf(),
            r.q == q,
            r.edim == edim,
            r.num_vars == num_vars,
            r.view_rows() == Seq::new(pow2(num_vars as nat), |i: int| diag_s(edim as nat, 0u64)),
    {
        let mut evals: Vec<RqNtt> = Vec::new();
        let mut i: usize = 0;
        while i < len
            invariant
                q >= 2,
                i <= len,
                evals@.len() == i,
                forall|j: int| 0 <= j < i ==> (#[trigger] evals@[j]).wf(),
                forall|j: int| 0 <= j < i ==> (#[trigger] evals@[j]).q == q,
                forall|j: int| 0 <= j < i ==> (#[trigger] evals@[j]).c@ == diag_s(edim as nat, 0u64),
            decreases len - i,
        {
            evals.push(RqNtt::zero(q, edim));
            i = i + 1;
        }
        let r = DenseMultilinearExtension { q, edim, num_vars, evals };
        proof {
            assert(r.view_rows() =~= Seq::new(pow2(num_vars as nat), |i: int| diag_s(edim as nat, 0u64)));
        }
        r
    }

    /// Wrap an evaluation table; `evals` must have length `2^num_vars`.
    pub fn from_evaluations(q: u64, edim: usize, num_vars: usize, evals: Vec<RqNtt>) -> (r: DenseMultilinearExtension)
        requires
            q >= 2,
            evals@.len() == pow2(num_vars as nat),
            forall|i: int| 0 <= i < evals@.len() ==> (#[trigger] evals@[i]).wf(),
            forall|i: int| 0 <= i < evals@.len() ==> (#[trigger] evals@[i]).q == q,
            forall|i: int| 0 <= i < evals@.len() ==> (#[trigger] evals@[i]).dim() == edim as nat,
        ensures
            r.wf(),
            r.q == q,
            r.edim == edim,
            r.num_vars == num_vars,
            r.view_rows() == evals@.map_values(|e: RqNtt| e.c@),
    {
        DenseMultilinearExtension { q, edim, num_vars, evals }
    }

    /// Coordinate-wise sum of two extensions over the same variables.
    pub fn add(&self, other: &DenseMultilinearExtension) -> (r: DenseMultilinearExtension)
        requires
            self.wf(),
            other.wf(),
            self.q == other.q,
            self.edim == other.edim,
            self.num_vars == other.num_vars,
        ensures
            r.wf(),
            r.q == self.q,
            r.edim == self.edim,
            r.num_vars == self.num_vars,
            r.view_rows() == Seq::new(self.view_rows().len(),
                |i: int| ntt_add_s(self.q, self.view_rows()[i], other.view_rows()[i])),
    {
        let mut evals: Vec<RqNtt> = Vec::new();
        let mut i: usize = 0;
        while i < self.evals.len()
            invariant
                self.wf(),
                other.wf(),
                self.q == other.q,
                self.edim == other.edim,
                self.evals@.len() == other.evals@.len(),
                i <= self.evals@.len(),
                evals@.len() == i,
                forall|j: int| 0 <= j < i ==> (#[trigger] evals@[j]).wf(),
                forall|j: int| 0 <= j < i ==> (#[trigger] evals@[j]).q == self.q,
                forall|j: int| 0 <= j < i ==> (#[trigger] evals@[j]).dim() == self.edim as nat,
                forall|j: int| 0 <= j < i ==> (#[trigger] evals@[j]).c@
                    == ntt_add_s(self.q, self.view_rows()[j], other.view_rows()[j]),
            decreases self.evals@.len() - i,
        {
            evals.push(self.evals[i].add(&other.evals[i]));
            i = i + 1;
        }
        let r = DenseMultilinearExtension { q: self.q, edim: self.edim, num_vars: self.num_vars, evals };
        proof {
            assert(r.view_rows() =~= Seq::new(self.view_rows().len(),
                |i: int| ntt_add_s(self.q, self.view_rows()[i], other.view_rows()[i])));
        }
        r
    }

    /// Multiply every evaluation by a fixed ring element.
    pub fn scale(&self, k: &RqNtt) -> (r: DenseMultilinearExtension)
        requires
            self.wf(),
            k.wf(),
            k.q == self.q,
            k.dim() == self.edim as nat,
        ensures
            r.wf(),
            r.q == self.q,
            r.edim == self.edim,
            r.num_vars == self.num_vars,
            r.view_rows() == Seq::new(self.view_rows().len(),
                |i: int| ntt_mul_s(self.q, k.c@, self.view_rows()[i])),
    {
        let mut evals: Vec<RqNtt> = Vec::new();
        let mut i: usize = 0;
        while i < self.evals.len()
            invariant
                self.wf(),
                k.wf(),
                k.q == self.q,
                k.dim() == self.edim as nat,
                i <= self.evals@.len(),
                evals@.len() == i,
                forall|j: int| 0 <= j < i ==> (#[trigger] evals@[j]).wf(),
                forall|j: int| 0 <= j < i ==> (#[trigger] evals@[j]).q == self.q,
                forall|j: int| 0 <= j < i ==> (#[trigger] evals@[j]).dim() == self.edim as nat,
                forall|j: int| 0 <= j < i ==> (#[trigger] evals@[j]).c@
                    == ntt_mul_s(self.q, k.c@, self.view_rows()[j]),
            decreases self.evals@.len() - i,
        {
            evals.push(k.mul(&self.evals[i]));
            i = i + 1;
        }
        let r = DenseMultilinearExtension { q: self.q, edim: self.edim, num_vars: self.num_vars, evals };
        proof {
            assert(r.view_rows() =~= Seq::new(self.view_rows().len(),
                |i: int| ntt_mul_s(self.q, k.c@, self.view_rows()[i])));
        }
        r
    }

    /// Fix the first variable at `r`, halving the table.
    pub fn fix_variable(&self, r: &RqNtt) -> (res: DenseMultilinearExtension)
        requires
            self.wf(),
            self.num_vars >= 1,
            r.wf(),
            r.q == self.q,
            r.dim() == self.edim as nat,
        ensures
            res.wf(),
            res.q == self.q,
            res.edim == self.edim,
            res.num_vars == self.num_vars - 1,
            res.view_rows() == fix_var_s(self.q, self.view_rows(), r.c@),
    {
        proof {
            vstd::arithmetic::power2::lemma_pow2_unfold(self.num_vars as nat);
            vstd::arithmetic::power2::lemma_pow2_pos((self.num_vars - 1) as nat);
        }
        let n = self.evals.len();
        let half = n / 2;
        proof {
            assert(self.evals@.len() == 2 * pow2((self.num_vars - 1) as nat));
            assert(half == pow2((self.num_vars - 1) as nat));
        }
        let mut evals: Vec<RqNtt> = Vec::new();
        let mut i: usize = 0;
        while i < half
            invariant
                self.wf(),
                r.wf(),
                r.q == self.q,
                r.dim() == self.edim as nat,
                n == self.evals@.len(),
                2 * half <= n,
                i <= half,
                evals@.len() == i,
                forall|j: int| 0 <= j < i ==> (#[trigger] evals@[j]).wf(),
                forall|j: int| 0 <= j < i ==> (#[trigger] evals@[j]).q == self.q,
                forall|j: int| 0 <= j < i ==> (#[trigger] evals@[j]).dim() == self.edim as nat,
                forall|j: int| 0 <= j < i ==> (#[trigger] evals@[j]).c@
                    == ntt_add_s(self.q, self.view_rows()[2 * j],
                        ntt_mul_s(self.q, r.c@,
                            ntt_sub_s(self.q, self.view_rows()[2 * j + 1], self.view_rows()[2 * j]))),
            decreases half - i,
        {
            let low = &self.evals[2 * i];
            let high = &self.evals[2 * i + 1];
            let diff = high.sub(low);
            proof {
                assert(diff.c@ =~= ntt_sub_s(self.q, self.view_rows()[2 * i as int + 1], self.view_rows()[2 * i as int]));
            }
            let scaled = r.mul(&diff);
            evals.push(low.add(&scaled));
            i = i + 1;
        }
        let res = DenseMultilinearExtension {
            q: self.q,
            edim: self.edim,
            num_vars: self.num_vars - 1,
            evals,
        };
        proof {
            assert(res.view_rows() =~= fix_var_s(self.q, self.view_rows(), r.c@));
        }
        res
    }

    /// Evaluate the extension at a point, one variable at a time.
    pub fn evaluate(&self, point: &Vec<RqNtt>) -> (res: RqNtt)
        requires
            self.wf(),
            point@.len() == self.num_vars,
            forall|i: int| 0 <= i < point@.len() ==> (#[trigger] point@[i]).wf(),
            forall|i: int| 0 <= i < point@.len() ==> (#[trigger] point@[i]).q == self.q,
            forall|i: int| 0 <= i < point@.len() ==> (#[trigger] point@[i]).dim() == self.edim as nat,
        ensures
            res.wf(),
            res.q == self.q,
            res.dim() == self.edim as nat,
            res.c@ == eval_mle_s(self.q, self.view_rows(), point@.map_values(|e: RqNtt| e.c@)),
    {
        let ghost pt = point@.map_values(|e: RqNtt| e.c@);
        let mut cur = self.clone_mle();
        let mut i: usize = 0;
        proof {
            assert(pt.subrange(0, pt.len() as int) =~= pt);
        }
        while i < point.len()
            invariant
                self.wf(),
                point@.len() == self.num_vars,
                forall|k: int| 0 <= k < point@.len() ==> (#[trigger] point@[k]).wf(),
                forall|k: int| 0 <= k < point@.len() ==> (#[trigger] point@[k]).q == self.q,
                forall|k: int| 0 <= k < point@.len() ==> (#[trigger] point@[k]).dim() == self.edim as nat,
                pt == point@.map_values(|e: RqNtt| e.c@),
                i <= point@.len(),
                cur.wf(),
                cur.q == self.q,
                cur.edim == self.edim,
                cur.num_vars == self.num_vars - i,
                eval_mle_s(self.q, cur.view_rows(), pt.subrange(i as int, pt.len() as int))
                    == eval_mle_s(self.q, self.view_rows(), pt),
            decreases point@.len() - i,
        {
            let ghost rest = pt.subrange(i as int, pt.len() as int);
            proof {
                assert(rest.len() > 0);
                assert(rest[0] == pt[i as int]);
                assert(rest.subrange(1, rest.len() as int) =~= pt.subrange(i + 1, pt.len() as int));
            }
            cur = cur.fix_variable(&point[i]);
            i = i + 1;
        }
        proof {
            assert(pt.subrange(pt.len() as int, pt.len() as int) =~= Seq::<Seq<u64>>::empty());
            vstd::arithmetic::power2::lemma2_to64();
            assert(cur.view_rows().len() == 1);
        }
        let res = cur.evals[0].clone_elem();
        proof {
            assert(res.c@ == cur.view_rows()[0]);
        }
        res
    }

    pub fn clone_mle(&self) -> (r: DenseMultilinearExtension)
        requires
            self.wf(),
        ensures
            r.wf(),
            r.q == self.q,
            r.edim == self.edim,
            r.num_vars == self.num_vars,
            r.view_rows() == self.view_rows(),
    {
        let mut evals: Vec<RqNtt> = Vec::new();
        let mut i: usize = 0;
        while i < self.evals.len()
            invariant
                self.wf(),
                i <= self.evals@.len(),
                evals@.len() == i,
                forall|j: int| 0 <= j < i ==> (#[trigger] evals@[j]).wf(),
                forall|j: int| 0 <= j < i ==> (#[trigger] evals@[j]).q == self.q,
                forall|j: int| 0 <= j < i ==> (#[trigger] evals@[j]).dim() == self.edim as nat,
                forall|j: int| 0 <= j < i ==> (#[trigger] evals@[j]).c@ == self.view_rows()[j],
            decreases self.evals@.len() - i,
        {
            evals.push(self.evals[i].clone_elem());
            i = i + 1;
        }
        let r = DenseMultilinearExtension { q: self.q, edim: self.edim, num_vars: self.num_vars, evals };
        proof {
            assert(r.view_rows() =~= self.view_rows());
        }
        r
    }
}

/// Evaluate a family of extensions at one point.
pub fn evaluate_mles(mles: &Vec<DenseMultilinearExtension>, point: &Vec<RqNtt>) -> (res: Vec<RqNtt>)
    requires
        forall|i: int| 0 <= i < mles@.len() ==> (#[trigger] mles@[i]).wf(),
        forall|i: int| 0 <= i < mles@.len() ==> (#[trigger] mles@[i]).num_vars == point@.len(),
        forall|i: int| 0 <= i < mles@.len() ==> (#[trigger] mles@[i]).q == mles@[0].q,
        forall|i: int| 0 <= i < mles@.len() ==> (#[trigger] mles@[i]).edim == mles@[0].edim,
        forall|i: int| 0 <= i < point@.len() ==> (#[trigger] point@[i]).wf(),
        mles@.len() > 0 ==> forall|i: int| 0 <= i < point@.len() ==> (#[trigger] point@[i]).q == mles@[0].q,
        mles@.len() > 0 ==> forall|i: int| 0 <= i < point@.len() ==> (#[trigger] point@[i]).dim() == mles@[0].edim as nat,
    ensures
        res@.len() == mles@.len(),
        forall|i: int| 0 <= i < res@.len() ==> (#[trigger] res@[i]).wf(),
        forall|i: int| 0 <= i < res@.len() ==> (#[trigger] res@[i]).q == mles@[0].q,
        forall|i: int| 0 <= i < res@.len() ==> (#[trigger] res@[i]).dim() == mles@[0].edim as nat,
        forall|i: int| 0 <= i < res@.len() ==> (#[trigger] res@[i]).c@
            == eval_mle_s(mles@[0].q, mles@[i].view_rows(), point@.map_values(|e: RqNtt| e.c@)),
{
    let mut res: Vec<RqNtt> = Vec::new();
    let mut i: usize = 0;
    while i < mles.len()
        invariant
            forall|k: int| 0 <= k < mles@.len() ==> (#[trigger] mles@[k]).wf(),
            forall|k: int| 0 <= k < mles@.len() ==> (#[trigger] mles@[k]).num_vars == point@.len(),
            forall|k: int| 0 <= k < mles@.len() ==> (#[trigger] mles@[k]).q == mles@[0].q,
            forall|k: int| 0 <= k < mles@.len() ==> (#[trigger] mles@[k]).edim == mles@[0].edim,
            forall|k: int| 0 <= k < point@.len() ==> (#[trigger] point@[k]).wf(),
            mles@.len() > 0 ==> forall|k: int| 0 <= k < point@.len() ==> (#[trigger] point@[k]).q == mles@[0].q,
            mles@.len() > 0 ==> forall|k: int| 0 <= k < point@.len() ==> (#[trigger] point@[k]).dim() == mles@[0].edim as nat,
            i <= mles@.len(),
            res@.len() == i,
            forall|k: int| 0 <= k < i ==> (#[trigger] res@[k]).wf(),
            forall|k: int| 0 <= k < i ==> (#[trigger] res@[k]).q == mles@[0].q,
            forall|k: int| 0 <= k < i ==> (#[trigger] res@[k]).dim() == mles@[0].edim as nat,
            forall|k: int| 0 <= k < i ==> (#[trigger] res@[k]).c@
                == eval_mle_s(mles@[0].q, mles@[k].view_rows(), point@.map_values(|e: RqNtt| e.c@)),
        decreases mles@.len() - i,
    {
        let v = mles[i].evaluate(point);
        res.push(v);
        i = i + 1;
    }
    res
}

/// Build the table of `eq(r, x)` over the hypercube of `r.len()` variables.
pub fn build_eq_table(q: u64, edim: usize, rs: &Vec<RqNtt>) -> (res: DenseMultilinearExtension)
    requires
        q >= 2,
        forall|i: int| 0 <= i < rs@.len() ==> (#[trigger] rs@[i]).wf(),
        forall|i: int| 0 <= i < rs@.len() ==> (#[trigger] rs@[i]).q == q,
        forall|i: int| 0 <= i < rs@.len() ==> (#[trigger] rs@[i]).dim() == edim as nat,
    ensures
        res.wf(),
        res.q == q,
        res.edim == edim,
        res.num_vars == rs@.len(),
        res.view_rows() == eq_table_s(q, edim as nat, rs@.map_values(|e: RqNtt| e.c@)),
{
    let ghost rss = rs@.map_values(|e: RqNtt| e.c@);
    let one = RqNtt::from_u128(q, edim, 1u128);
    proof {
        vstd::arithmetic::div_mod::lemma_small_mod(1nat, q as nat);
    }
    let mut table: Vec<RqNtt> = Vec::new();
    table.push(one);
    let mut k: usize = 0;
    proof {
        vstd::arithmetic::power2::lemma2_to64();
        assert(table@.map_values(|e: RqNtt| e.c@) =~= eq_table_s(q, edim as nat, rss.subrange(0, 0)));
    }
    while k < rs.len()
        invariant
            q >= 2,
            forall|i: int| 0 <= i < rs@.len() ==> (#[trigger] rs@[i]).wf(),
            forall|i: int| 0 <= i < rs@.len() ==> (#[trigger] rs@[i]).q == q,
            forall|i: int| 0 <= i < rs@.len() ==> (#[trigger] rs@[i]).dim() == edim as nat,
            rss == rs@.map_values(|e: RqNtt| e.c@),
            k <= rs@.len(),
            table@.len() == pow2(k as nat),
            forall|i: int| 0 <= i < table@.len() ==> (#[trigger] table@[i]).wf(),
            forall|i: int| 0 <= i < table@.len() ==> (#[trigger] table@[i]).q == q,
            forall|i: int| 0 <= i < table@.len() ==> (#[trigger] table@[i]).dim() == edim as nat,
            table@.map_values(|e: RqNtt| e.c@) == eq_table_s(q, edim as nat, rss.subrange(0, k as int)),
        decreases rs@.len() - k,
    {
        let r = &rs[k];
        let one_k = RqNtt::from_u128(q, edim, 1u128);
        proof {
            vstd::arithmetic::div_mod::lemma_small_mod(1nat, q as nat);
        }
        let one_minus_r = one_k.sub(r);
        proof {
            assert(one_minus_r.c@ =~= ntt_sub_s(q, diag_s(edim as nat, 1u64), r.c@));
        }
        let mut next: Vec<RqNtt> = Vec::new();
        let mut i: usize = 0;
        while i < table.len()
            invariant
                q >= 2,
                one_minus_r.wf(),
                one_minus_r.q == q,
                one_minus_r.c@ == ntt_sub_s(q, diag_s(edim as nat, 1u64), r.c@),
                r.wf(),
                r.q == q,
                r.dim() == edim as nat,
                forall|j: int| 0 <= j < table@.len() ==> (#[trigger] table@[j]).wf(),
                forall|j: int| 0 <= j < table@.len() ==> (#[trigger] table@[j]).q == q,
                forall|j: int| 0 <= j < table@.len() ==> (#[trigger] table@[j]).dim() == edim as nat,
                i <= table@.len(),
                next@.len() == i,
                forall|j: int| 0 <= j < i ==> (#[trigger] next@[j]).wf(),
                forall|j: int| 0 <= j < i ==> (#[trigger] next@[j]).q == q,
                forall|j: int| 0 <= j < i ==> (#[trigger] next@[j]).dim() == edim as nat,
                forall|j: int| 0 <= j < i ==> (#[trigger] next@[j]).c@
                    == ntt_mul_s(q, ntt_sub_s(q, diag_s(edim as nat, 1u64), r.c@), table@[j].c@),
            decreases table@.len() - i,
        {
            next.push(one_minus_r.mul(&table[i]));
            i = i + 1;
        }
        let mut i2: usize = 0;
        while i2 < table.len()
            invariant
                q >= 2,
                r.wf(),
                r.q == q,
                r.dim() == edim as nat,
                forall|j: int| 0 <= j < table@.len() ==> (#[trigger] table@[j]).wf(),
                forall|j: int| 0 <= j < table@.len() ==> (#[trigger] table@[j]).q == q,
                forall|j: int| 0 <= j < table@.len() ==> (#[trigger] table@[j]).dim() == edim as nat,
                i2 <= table@.len(),
                next@.len() == table@.len() + i2,
                forall|j: int| 0 <= j < next@.len() ==> (#[trigger] next@[j]).wf(),
                forall|j: int| 0 <= j < next@.len() ==> (#[trigger] next@[j]).q == q,
                forall|j: int| 0 <= j < next@.len() ==> (#[trigger] next@[j]).dim() == edim as nat,
                forall|j: int| 0 <= j < table@.len() ==> (#[trigger] next@[j]).c@
                    == ntt_mul_s(q, ntt_sub_s(q, diag_s(edim as nat, 1u64), r.c@), table@[j].c@),
                forall|j: int| table@.len() <= j < next@.len() ==> (#[trigger] next@[j]).c@
                    == ntt_mul_s(q, r.c@, table@[j - table@.len()].c@),
            decreases table@.len() - i2,
        {
            next.push(r.mul(&table[i2]));
            i2 = i2 + 1;
        }
        proof {
            let prevs = table@.map_values(|e: RqNtt| e.c@);
            let rseq = rss.subrange(0, k + 1);
            assert(rseq.drop_last() =~= rss.subrange(0, k as int));
            assert(rseq.last() == r.c@);
            assert(next@.map_values(|e: RqNtt| e.c@) =~= eq_table_s(q, edim as nat, rseq));
            vstd::arithmetic::power2::lemma_pow2_unfold((k + 1) as nat);
        }
        table = next;
        k = k + 1;
    }
    proof {
        assert(rss.subrange(0, rss.len() as int) =~= rss);
    }
    DenseMultilinearExtension { q, edim, num_vars: rs.len(), evals: table }
}

/// `eq(a, b)` evaluated directly on two equal-length vectors.
pub fn eq_eval(a: &Vec<RqNtt>, b: &Vec<RqNtt>, q: u64, edim: usize) -> (res: RqNtt)
    requires
        q >= 2,
        a@.len() == b@.len(),
        forall|i: int| 0 <= i < a@.len() ==> (#[trigger] a@[i]).wf(),
        forall|i: int| 0 <= i < a@.len() ==> (#[trigger] a@[i]).q == q,
        forall|i: int| 0 <= i < a@.len() ==> (#[trigger] a@[i]).dim() == edim as nat,
        forall|i: int| 0 <= i < b@.len() ==> (#[trigger] b@[i]).wf(),
        forall|i: int| 0 <= i < b@.len() ==> (#[trigger] b@[i]).q == q,
        forall|i: int| 0 <= i < b@.len() ==> (#[trigger] b@[i]).dim() == edim as nat,
    ensures
        res.wf(),
        res.q == q,
        res.dim() == edim as nat,
        res.c@ == eq_eval_s(q, a@.map_values(|e: RqNtt| e.c@), b@.map_values(|e: RqNtt| e.c@), edim as nat),
{
    let ghost aa = a@.map_values(|e: RqNtt| e.c@);
    let ghost bb = b@.map_values(|e: RqNtt| e.c@);
    let one = RqNtt::from_u128(q, edim, 1u128);
    proof {
        vstd::arithmetic::div_mod::lemma_small_mod(1nat, q as nat);
    }
    let mut acc = RqNtt::from_u128(q, edim, 1u128);
    let mut i: usize = 0;
    proof {
        assert(acc.c@ =~= eq_eval_s(q, aa.subrange(0, 0), bb.subrange(0, 0), edim as nat));
    }
    while i < a.len()
        invariant
            q >= 2,
            a@.len() == b@.len(),
            forall|k: int| 0 <= k < a@.len() ==> (#[trigger] a@[k]).wf(),
            forall|k: int| 0 <= k < a@.len() ==> (#[trigger] a@[k]).q == q,
            forall|k: int| 0 <= k < a@.len() ==> (#[trigger] a@[k]).dim() == edim as nat,
            forall|k: int| 0 <= k < b@.len() ==> (#[trigger] b@[k]).wf(),
            forall|k: int| 0 <= k < b@.len() ==> (#[trigger] b@[k]).q == q,
            forall|k: int| 0 <= k < b@.len() ==> (#[trigger] b@[k]).dim() == edim as nat,
            aa == a@.map_values(|e: RqNtt| e.c@),
            bb == b@.map_values(|e: RqNtt| e.c@),
            one.wf(),
            one.q == q,
            one.c@ == diag_s(edim as nat, 1u64),
            i <= a@.len(),
            acc.wf(),
            acc.q == q,
            acc.dim() == edim as nat,
            acc.c@ == eq_eval_s(q, aa.subrange(0, i as int), bb.subrange(0, i as int), edim as nat),
        decreases a@.len() - i,
    {
        let ab = a[i].mul(&b[i]);
        let na = one.sub(&a[i]);
        let nb = one.sub(&b[i]);
        let nanb = na.mul(&nb);
        let term = ab.add(&nanb);
        acc = acc.mul(&term);
        proof {
            let ai = aa.subrange(0, i + 1);
            let bi = bb.subrange(0, i + 1);
            assert(ai.drop_last() =~= aa.subrange(0, i as int));
            assert(bi.drop_last() =~= bb.subrange(0, i as int));
            assert(ai.last() == aa[i as int]);
            assert(bi.last() == bb[i as int]);
            assert(na.c@ =~= ntt_sub_s(q, diag_s(edim as nat, 1u64), aa[i as int]));
            assert(nb.c@ =~= ntt_sub_s(q, diag_s(edim as nat, 1u64), bb[i as int]));
            assert(acc.c@ =~= eq_eval_s(q, ai, bi, edim as nat));
        }
        i = i + 1;
    }
    proof {
        assert(aa.subrange(0, aa.len() as int) =~= aa);
        assert(bb.subrange(0, bb.len() as int) =~= bb);
    }
    acc
}

} // verus!
