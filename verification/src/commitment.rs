//! The Ajtai commitment scheme: a `C x W` matrix over the NTT-form ring
//! applied to a length-`W` witness.  The scheme is linear, which is what
//! the folding layer relies on; the homomorphism is proved below.

use vstd::prelude::*;
use crate::ring::{RqNtt, RqCoeff, RingParams, seq_wf, ntt_add_s, ntt_mul_s, diag_s, crt_s, icrt_s};
use crate::zq::{zq_add, zq_mul};
use crate::decompose::{decompose_balanced_slice, bal_digit_residues};

verus! {

/// Errors of the commitment layer.
#[derive(Debug)]
pub enum CommitmentError {
    /// The matrix has the wrong shape: carries the shape found and the
    /// shape expected, rows then columns.
    WrongAjtaiMatrixDimensions(usize, usize, usize, usize),
    /// The witness has the wrong length: carries the length found and
    /// the length expected.
    WrongWitnessLength(usize, usize),
}

/// A commitment: an opaque vector of `C` ring elements, equal to another
/// commitment exactly when all coordinates are equal.
pub struct Commitment {
    pub cm: Vec<RqNtt>,
}

/// All elements of a ring-element vector are well-formed over `(q, edim)`.
pub open spec fn elems_wf(v: Seq<RqNtt>, q: u64, edim: nat) -> bool {
    &&& forall|i: int| 0 <= i < v.len() ==> (#[trigger] v[i]).wf()
    &&& forall|i: int| 0 <= i < v.len() ==> (#[trigger] v[i]).q == q
    &&& forall|i: int| 0 <= i < v.len() ==> (#[trigger] v[i]).dim() == edim
}

/// The view of a ring-element vector.
pub open spec fn elems_view(v: Seq<RqNtt>) -> Seq<Seq<u64>> {
    v.map_values(|e: RqNtt| e.c@)
}

impl Commitment {
    pub open spec fn wf(&self, q: u64, edim: nat) -> bool {
        elems_wf(self.cm@, q, edim)
    }

    /// Wrap a raw vector of ring elements.
    pub fn from_vec_raw(cm: Vec<RqNtt>) -> (r: Commitment)
        ensures
            r.cm@ == cm@,
    {
        Commitment { cm }
    }

    /// Two commitments are equal iff all coordinates are equal.
    pub fn equals(&self, other: &Commitment) -> (r: bool)
        ensures
            r == (elems_view(self.cm@) == elems_view(other.cm@)
                && self.cm@.len() == other.cm@.len()
                && (forall|i: int| 0 <= i < self.cm@.len()
                    ==> (#[trigger] self.cm@[i]).q == other.cm@[i].q)),
    {
        if self.cm.len() != other.cm.len() {
            proof {
                assert(elems_view(self.cm@).len() != elems_view(other.cm@).len());
            }
            return false;
        }
        let mut i: usize = 0;
        while i < self.cm.len()
            invariant
                self.cm@.len() == other.cm@.len(),
                i <= self.cm@.len(),
                forall|k: int| 0 <= k < i ==> (#[trigger] self.cm@[k]).c@ == other.cm@[k].c@,
                forall|k: int| 0 <= k < i ==> (#[trigger] self.cm@[k]).q == other.cm@[k].q,
            decreases self.cm@.len() - i,
        {
            if !self.cm[i].equals(&other.cm[i]) {
                proof {
                    if elems_view(self.cm@) == elems_view(other.cm@) {
                        assert(elems_view(self.cm@)[i as int] == elems_view(other.cm@)[i as int]);
                    }
                }
                return false;
            }
            i = i + 1;
        }
        proof {
            assert(elems_view(self.cm@) =~= elems_view(other.cm@));
        }
        true
    }
}

/// Dot product of one matrix row with a witness over the first `n` columns.
pub open spec fn ring_dot_s(q: u64, edim: nat, row: Seq<Seq<u64>>, f: Seq<Seq<u64>>, n: int) -> Seq<u64>
    decreases n,
{
    if n <= 0 {
        diag_s(edim, 0u64)
    } else {
        ntt_add_s(q, ring_dot_s(q, edim, row, f, n - 1), ntt_mul_s(q, row[n - 1], f[n - 1]))
    }
}

/// The commitment `c[i] = sum_j M[i][j] * f[j]`.
pub open spec fn commit_s(q: u64, edim: nat, mat: Seq<Seq<Seq<u64>>>, f: Seq<Seq<u64>>) -> Seq<Seq<u64>> {
    Seq::new(mat.len(), |i: int| ring_dot_s(q, edim, mat[i], f, f.len() as int))
}

/// The limb-major flattening of the balanced decomposition of a
/// coefficient-form witness: position `k * n + i` holds, coefficient by
/// coefficient, digit `k` of element `i`.
pub open spec fn decomp_flat_s(q: u64, f: Seq<Seq<u64>>, b: u64, l: nat) -> Seq<Seq<u64>> {
    Seq::new(l * f.len(), |p: int| Seq::new(f[p % f.len() as int].len(),
        |j: int| bal_digit_residues(q, f[p % f.len() as int][j], b, l)[p / f.len() as int]))
}

/// Every row converted to NTT form through the CRT map.
pub open spec fn crt_rows_s(p: RingParams, rows: Seq<Seq<u64>>) -> Seq<Seq<u64>> {
    rows.map_values(|r: Seq<u64>| crt_s(p, r))
}

/// A concrete instantiation of the Ajtai commitment scheme: a random
/// `c_rows x w_cols` matrix over the NTT-form ring.
pub struct AjtaiCommitmentScheme {
    pub q: u64,
    pub edim: usize,
    pub c_rows: usize,
    pub w_cols: usize,
    pub matrix: Vec<Vec<RqNtt>>,
}

impl AjtaiCommitmentScheme {
    pub open spec fn wf(&self) -> bool {
        &&& self.q >= 2
        &&& self.matrix@.len() == self.c_rows
        &&& forall|i: int| 0 <= i < self.matrix@.len() ==> (#[trigger] self.matrix@[i])@.len() == self.w_cols
        &&& forall|i: int| 0 <= i < self.matrix@.len() ==> elems_wf((#[trigger] self.matrix@[i])@, self.q, self.edim as nat)
    }

    /// The matrix as a mathematical sequence of rows.
    pub open spec fn mat_view(&self) -> Seq<Seq<Seq<u64>>> {
        self.matrix@.map_values(|row: Vec<RqNtt>| elems_view(row@))
    }

    /// Validate the dimensions of a raw matrix.  Fails with
    /// `WrongAjtaiMatrixDimensions` when the shape is not `c_rows x w_cols`.
    pub fn try_from(q: u64, edim: usize, c_rows: usize, w_cols: usize, matrix: Vec<Vec<RqNtt>>) -> (r: Result<AjtaiCommitmentScheme, CommitmentError>)
        requires
            q >= 2,
            forall|i: int| 0 <= i < matrix@.len() ==> elems_wf((#[trigger] matrix@[i])@, q, edim as nat),
        ensures
            r is Ok ==> r->Ok_0.wf(),
            r is Ok ==> r->Ok_0.q == q && r->Ok_0.edim == edim
                && r->Ok_0.c_rows == c_rows && r->Ok_0.w_cols == w_cols,
            r is Ok ==> r->Ok_0.mat_view()
                == matrix@.map_values(|row: Vec<RqNtt>| elems_view(row@)),
            r is Ok <==> matrix@.len() == c_rows
                && (forall|i: int| 0 <= i < matrix@.len() ==> (#[trigger] matrix@[i])@.len() == w_cols),
            r is Err ==> (r->Err_0 matches CommitmentError::WrongAjtaiMatrixDimensions(gr, gc, cc, ww)
                && gr == matrix@.len() && cc == c_rows && ww == w_cols
                && (matrix@.len() != c_rows ==> gc == 0)
                && (matrix@.len() == c_rows ==> exists|i: int| 0 <= i < c_rows
                    && (#[trigger] matrix@[i])@.len() == gc && gc != w_cols)),
    {
        if matrix.len() != c_rows {
            return Err(CommitmentError::WrongAjtaiMatrixDimensions(matrix.len(), 0, c_rows, w_cols));
        }
        let mut i: usize = 0;
        while i < matrix.len()
            invariant
                matrix@.len() == c_rows,
                i <= matrix@.len(),
                forall|k: int| 0 <= k < i ==> (#[trigger] matrix@[k])@.len() == w_cols,
            decreases matrix@.len() - i,
        {
            if matrix[i].len() != w_cols {
                return Err(CommitmentError::WrongAjtaiMatrixDimensions(c_rows, matrix[i].len(), c_rows, w_cols));
            }
            i = i + 1;
        }
        Ok(AjtaiCommitmentScheme { q, edim, c_rows, w_cols, matrix })
    }

    /// Sample a fresh matrix from caller-supplied randomness.
    pub fn rand(q: u64, edim: usize, c_rows: usize, w_cols: usize, rng: &mut rand::rngs::StdRng) -> (r: AjtaiCommitmentScheme)
        requires
            q >= 2,
        ensures
            r.wf(),
            r.q == q,
            r.edim == edim,
            r.c_rows == c_rows,
            r.w_cols == w_cols,
    {
        let mut matrix: Vec<Vec<RqNtt>> = Vec::new();
        let mut i: usize = 0;
        while i < c_rows
            invariant
                q >= 2,
                i <= c_rows,
                matrix@.len() == i,
                forall|k: int| 0 <= k < i ==> (#[trigger] matrix@[k])@.len() == w_cols,
                forall|k: int| 0 <= k < i ==> elems_wf((#[trigger] matrix@[k])@, q, edim as nat),
            decreases c_rows - i,
        {
            let mut row: Vec<RqNtt> = Vec::new();
            let mut j: usize = 0;
            while j < w_cols
                invariant
                    q >= 2,
                    j <= w_cols,
                    row@.len() == j,
                    forall|k: int| 0 <= k < j ==> (#[trigger] row@[k]).wf(),
                    forall|k: int| 0 <= k < j ==> (#[trigger] row@[k]).q == q,
                    forall|k: int| 0 <= k < j ==> (#[trigger] row@[k]).dim() == edim as nat,
                decreases w_cols - j,
            {
                let mut c: Vec<u64> = Vec::new();
                let mut d: usize = 0;
                while d < edim
                    invariant
                        q >= 2,
                        d <= edim,
                        c@.len() == d,
                        forall|k: int| 0 <= k < d ==> c@[k] < q,
                    decreases edim - d,
                {
                    c.push(crate::rng::random_residue(rng, q));
                    d = d + 1;
                }
                row.push(RqNtt { q, c });
                j = j + 1;
            }
            matrix.push(row);
            i = i + 1;
        }
        AjtaiCommitmentScheme { q, edim, c_rows, w_cols, matrix }
    }

    /// Commit to a witness in NTT form: multiply by the matrix.  Fails
    /// with `WrongWitnessLength` exactly when the length is not `w_cols`.
    pub fn commit_ntt(&self, f: &Vec<RqNtt>) -> (r: Result<Commitment, CommitmentError>)
        requires
            self.wf(),
            elems_wf(f@, self.q, self.edim as nat),
        ensures
            r is Ok <==> f@.len() == self.w_cols,
            r is Ok ==> r->Ok_0.wf(self.q, self.edim as nat)
                && r->Ok_0.cm@.len() == self.c_rows
                && elems_view(r->Ok_0.cm@) == commit_s(self.q, self.edim as nat, self.mat_view(), elems_view(f@)),
            r is Err ==> r->Err_0 == CommitmentError::WrongWitnessLength(f@.len() as usize, self.w_cols),
    {
        if f.len() != self.w_cols {
            return Err(CommitmentError::WrongWitnessLength(f.len(), self.w_cols));
        }
        let q = self.q;
        let edim = self.edim;
        let ghost fv = elems_view(f@);
        let mut cm: Vec<RqNtt> = Vec::new();
        let mut i: usize = 0;
        while i < self.c_rows
            invariant
                self.wf(),
                q == self.q,
                edim == self.edim,
                elems_wf(f@, q, edim as nat),
                f@.len() == self.w_cols,
                fv == elems_view(f@),
                i <= self.c_rows,
                cm@.len() == i,
                forall|k: int| 0 <= k < i ==> (#[trigger] cm@[k]).wf(),
                forall|k: int| 0 <= k < i ==> (#[trigger] cm@[k]).q == q,
                forall|k: int| 0 <= k < i ==> (#[trigger] cm@[k]).dim() == edim as nat,
                forall|k: int| 0 <= k < i ==> (#[trigger] cm@[k]).c@
                    == ring_dot_s(q, edim as nat, self.mat_view()[k], fv, fv.len() as int),
            decreases self.c_rows - i,
        {
            let row = &self.matrix[i];
            let mut acc = RqNtt::zero(q, edim);
            let mut j: usize = 0;
            proof {
                assert(self.mat_view()[i as int] == elems_view(row@));
            }
            while j < f.len()
                invariant
                    q >= 2,
                    elems_wf(row@, q, edim as nat),
                    elems_wf(f@, q, edim as nat),
                    row@.len() == f@.len(),
                    fv == elems_view(f@),
                    j <= f@.len(),
                    acc.wf(),
                    acc.q == q,
                    acc.dim() == edim as nat,
                    acc.c@ == ring_dot_s(q, edim as nat, elems_view(row@), fv, j as int),
                decreases f@.len() - j,
            {
                let p = row[j].mul(&f[j]);
                acc = acc.add(&p);
                j = j + 1;
            }
            cm.push(acc);
            i = i + 1;
        }
        proof {
            assert(elems_view(cm@) =~= commit_s(q, edim as nat, self.mat_view(), fv));
        }
        Ok(Commitment { cm })
    }

    /// Commit to a coefficient-form witness: convert each element to NTT
    /// form through the CRT map, then commit.
    pub fn commit_coeff(&self, params: &RingParams, f: &Vec<RqCoeff>) -> (r: Result<Commitment, CommitmentError>)
        requires
            self.wf(),
            params.wf(),
            params.q == self.q,
            params.e == self.edim,
            forall|i: int| 0 <= i < f@.len() ==> (#[trigger] f@[i]).wf(),
            forall|i: int| 0 <= i < f@.len() ==> (#[trigger] f@[i]).q == self.q,
            forall|i: int| 0 <= i < f@.len() ==> (#[trigger] f@[i]).dim() == params.d as nat,
        ensures
            r is Ok <==> f@.len() == self.w_cols,
            r is Ok ==> r->Ok_0.wf(self.q, self.edim as nat)
                && elems_view(r->Ok_0.cm@) == commit_s(self.q, self.edim as nat, self.mat_view(),
                    f@.map_values(|x: RqCoeff| crt_s(*params, x.c@))),
            r is Err ==> r->Err_0 == CommitmentError::WrongWitnessLength(f@.len() as usize, self.w_cols),
    {
        if f.len() != self.w_cols {
            return Err(CommitmentError::WrongWitnessLength(f.len(), self.w_cols));
        }
        let mut g: Vec<RqNtt> = Vec::new();
        let mut i: usize = 0;
        while i < f.len()
            invariant
                self.wf(),
                params.wf(),
                params.q == self.q,
                params.e == self.edim,
                forall|k: int| 0 <= k < f@.len() ==> (#[trigger] f@[k]).wf(),
                forall|k: int| 0 <= k < f@.len() ==> (#[trigger] f@[k]).q == self.q,
                forall|k: int| 0 <= k < f@.len() ==> (#[trigger] f@[k]).dim() == params.d as nat,
                i <= f@.len(),
                g@.len() == i,
                forall|k: int| 0 <= k < i ==> (#[trigger] g@[k]).wf(),
                forall|k: int| 0 <= k < i ==> (#[trigger] g@[k]).q == self.q,
                forall|k: int| 0 <= k < i ==> (#[trigger] g@[k]).dim() == self.edim as nat,
                forall|k: int| 0 <= k < i ==> (#[trigger] g@[k]).c@ == crt_s(*params, f@[k].c@),
            decreases f@.len() - i,
        {
            g.push(params.crt(&f[i]));
            i = i + 1;
        }
        let r = self.commit_ntt(&g);
        proof {
            assert(elems_view(g@) =~= f@.map_values(|x: RqCoeff| crt_s(*params, x.c@)));
        }
        r
    }

    /// Decompose a coefficient-form witness of length `w_cols / l`
    /// vertically in balanced radix `b`, flatten limb-major, and commit.
    pub fn decompose_and_commit_coeff(&self, params: &RingParams, f: &Vec<RqCoeff>, b: u64, l: usize) -> (r: Result<Commitment, CommitmentError>)
        requires
            self.wf(),
            params.wf(),
            params.q == self.q,
            params.e == self.edim,
            2 <= b < self.q,
            l >= 1,
            f@.len() * l <= usize::MAX,
            forall|i: int| 0 <= i < f@.len() ==> (#[trigger] f@[i]).wf(),
            forall|i: int| 0 <= i < f@.len() ==> (#[trigger] f@[i]).q == self.q,
            forall|i: int| 0 <= i < f@.len() ==> (#[trigger] f@[i]).dim() == params.d as nat,
        ensures
            r is Ok <==> f@.len() * l == self.w_cols,
            r is Ok ==> r->Ok_0.wf(self.q, self.edim as nat),
            r is Ok ==> elems_view(r->Ok_0.cm@) == commit_s(self.q, self.edim as nat, self.mat_view(),
                crt_rows_s(*params, decomp_flat_s(self.q,
                    f@.map_values(|x: RqCoeff| x.c@), b, l as nat))),
            r is Err ==> r->Err_0 is WrongWitnessLength,
    {
        let limbs = decompose_balanced_slice(self.q, f, b, l);
        proof {
            vstd::arithmetic::mul::lemma_mul_is_commutative(l as int, f@.len() as int);
        }
        let flat = flatten_limbs(self.q, params.d, &limbs, f.len());
        proof {
            let fv = f@.map_values(|x: RqCoeff| x.c@);
            let flatspec = decomp_flat_s(self.q, fv, b, l as nat);
            let n = f@.len() as int;
            assert(flat@.len() == l * f@.len());
            assert forall|p: int| 0 <= p < flat@.len() implies (#[trigger] flat@[p]).c@ == flatspec[p] by {
                vstd::arithmetic::div_mod::lemma_fundamental_div_mod(p, n);
                vstd::arithmetic::div_mod::lemma_mod_bound(p, n);
                vstd::arithmetic::div_mod::lemma_multiply_divide_lt(p, n, l as int);
                let k = p / n;
                let i = p % n;
                assert(p == k * n + i);
                assert(flat@[k * n + i].c@ == limbs@[k]@[i].c@);
                assert forall|j: int| 0 <= j < f@[i].c@.len() implies
                    limbs@[k]@[i].c@[j] == flatspec[p][j] by {
                    assert(limbs@[k]@[i].c@[j] == crate::decompose::bal_digit_residues(
                        self.q, f@[i].c@[j], b, l as nat)[k]);
                    assert(fv[i] == f@[i].c@);
                }
                assert(flat@[p].c@ =~= flatspec[p]);
            }
            assert(flat@.map_values(|x: RqCoeff| crt_s(*params, x.c@))
                =~= crt_rows_s(*params, flatspec));
        }
        let r = self.commit_coeff(params, &flat);
        proof {
            assert(flat@.len() == l * f@.len());
        }
        r
    }

    /// Convert an NTT-form witness to coefficient form, decompose it
    /// vertically in balanced radix `b`, flatten limb-major, and commit.
    pub fn decompose_and_commit_ntt(&self, params: &RingParams, w: &Vec<RqNtt>, b: u64, l: usize) -> (r: Result<Commitment, CommitmentError>)
        requires
            self.wf(),
            params.wf(),
            params.q == self.q,
            params.e == self.edim,
            2 <= b < self.q,
            l >= 1,
            w@.len() * l <= usize::MAX,
            elems_wf(w@, self.q, self.edim as nat),
        ensures
            r is Ok <==> w@.len() * l == self.w_cols,
            r is Ok ==> r->Ok_0.wf(self.q, self.edim as nat),
            r is Ok ==> elems_view(r->Ok_0.cm@) == commit_s(self.q, self.edim as nat, self.mat_view(),
                crt_rows_s(*params, decomp_flat_s(self.q,
                    w@.map_values(|x: RqNtt| icrt_s(*params, x.c@)), b, l as nat))),
            r is Err ==> r->Err_0 is WrongWitnessLength,
    {
        let mut f: Vec<RqCoeff> = Vec::new();
        let mut i: usize = 0;
        while i < w.len()
            invariant
                self.wf(),
                params.wf(),
                params.q == self.q,
                params.e == self.edim,
                elems_wf(w@, self.q, self.edim as nat),
                i <= w@.len(),
                f@.len() == i,
                forall|k: int| 0 <= k < i ==> (#[trigger] f@[k]).wf(),
                forall|k: int| 0 <= k < i ==> (#[trigger] f@[k]).q == self.q,
                forall|k: int| 0 <= k < i ==> (#[trigger] f@[k]).dim() == params.d as nat,
                forall|k: int| 0 <= k < i ==> (#[trigger] f@[k]).c@ == icrt_s(*params, w@[k].c@),
            decreases w@.len() - i,
        {
            f.push(params.icrt(&w[i]));
            i = i + 1;
        }
        let r = self.decompose_and_commit_coeff(params, &f, b, l);
        proof {
            assert(f@.map_values(|x: RqCoeff| x.c@)
                =~= w@.map_values(|x: RqNtt| icrt_s(*params, x.c@)));
        }
        r
    }
}

/// Flatten a limb-major decomposition into one witness vector:
/// limb `k` occupies positions `k * n .. (k + 1) * n`.
fn flatten_limbs(q: u64, d: usize, limbs: &Vec<Vec<RqCoeff>>, n: usize) -> (r: Vec<RqCoeff>)
    requires
        q >= 2,
        limbs@.len() * n <= usize::MAX,
        forall|k: int| 0 <= k < limbs@.len() ==> (#[trigger] limbs@[k])@.len() == n,
        forall|k: int, i: int| 0 <= k < limbs@.len() && 0 <= i < n
            ==> (#[trigger] limbs@[k]@[i]).wf() && limbs@[k]@[i].q == q
                && limbs@[k]@[i].c@.len() == d as nat,
    ensures
        r@.len() == limbs@.len() * n,
        forall|a: int| 0 <= a < r@.len() ==> (#[trigger] r@[a]).wf(),
        forall|a: int| 0 <= a < r@.len() ==> (#[trigger] r@[a]).q == q,
        forall|a: int| 0 <= a < r@.len() ==> (#[trigger] r@[a]).dim() == d as nat,
        forall|k: int, i: int| 0 <= k < limbs@.len() && 0 <= i < n
            ==> (#[trigger] r@[k * n + i]).c@ == limbs@[k]@[i].c@,
{
    let mut out: Vec<RqCoeff> = Vec::new();
    let mut k: usize = 0;
    while k < limbs.len()
        invariant
            q >= 2,
            limbs@.len() * n <= usize::MAX,
            forall|a: int| 0 <= a < limbs@.len() ==> (#[trigger] limbs@[a])@.len() == n,
            forall|a: int, i: int| 0 <= a < limbs@.len() && 0 <= i < n
                ==> (#[trigger] limbs@[a]@[i]).wf() && limbs@[a]@[i].q == q
                    && limbs@[a]@[i].c@.len() == d as nat,
            k <= limbs@.len(),
            out@.len() == k * n,
            forall|a: int| 0 <= a < out@.len() ==> (#[trigger] out@[a]).wf(),
            forall|a: int| 0 <= a < out@.len() ==> (#[trigger] out@[a]).q == q,
            forall|a: int| 0 <= a < out@.len() ==> (#[trigger] out@[a]).dim() == d as nat,
            forall|a: int, i: int| 0 <= a < k && 0 <= i < n
                ==> (#[trigger] out@[a * n + i]).c@ == limbs@[a]@[i].c@,
        decreases limbs@.len() - k,
    {
        proof {
            vstd::arithmetic::mul::lemma_mul_inequality(k as int + 1, limbs@.len() as int, n as int);
            assert((k + 1) * n == k * n + n) by (nonlinear_arith);
        }
        let row = &limbs[k];
        let mut i: usize = 0;
        while i < row.len()
            invariant
                q >= 2,
                row@ == limbs@[k as int]@,
                row@.len() == n,
                k < limbs@.len(),
                forall|a: int, b2: int| 0 <= a < limbs@.len() && 0 <= b2 < n
                    ==> (#[trigger] limbs@[a]@[b2]).wf() && limbs@[a]@[b2].q == q
                        && limbs@[a]@[b2].c@.len() == d as nat,
                forall|a: int| 0 <= a < limbs@.len() ==> (#[trigger] limbs@[a])@.len() == n,
                k * n + n <= usize::MAX,
                i <= n,
                out@.len() == k * n + i,
                forall|a: int| 0 <= a < out@.len() ==> (#[trigger] out@[a]).wf(),
                forall|a: int| 0 <= a < out@.len() ==> (#[trigger] out@[a]).q == q,
                forall|a: int| 0 <= a < out@.len() ==> (#[trigger] out@[a]).dim() == d as nat,
                forall|a: int, b2: int| 0 <= a < k && 0 <= b2 < n
                    ==> (#[trigger] out@[a * n + b2]).c@ == limbs@[a]@[b2].c@,
                forall|b2: int| 0 <= b2 < i
                    ==> (#[trigger] out@[k as int * n + b2]).c@ == limbs@[k as int]@[b2].c@,
            decreases n - i,
        {
            let x = &row[i];
            let mut c: Vec<u64> = Vec::new();
            let mut j: usize = 0;
            while j < x.c.len()
                invariant
                    x.wf(),
                    j <= x.c@.len(),
                    c@.len() == j,
                    forall|a: int| 0 <= a < j ==> c@[a] == x.c@[a],
                decreases x.c@.len() - j,
            {
                c.push(x.c[j]);
                j = j + 1;
            }
            proof {
                assert(c@ =~= x.c@);
            }
            out.push(RqCoeff { q, c });
            proof {
                assert forall|a: int, b2: int| 0 <= a < k && 0 <= b2 < n
                    implies (#[trigger] out@[a * n + b2]).c@ == limbs@[a]@[b2].c@ by {
                    vstd::arithmetic::mul::lemma_mul_inequality(a + 1, k as int, n as int);
                    assert((a + 1) * n == a * n + n) by (nonlinear_arith);
                }
            }
            i = i + 1;
        }
        k = k + 1;
    }
    out
}

/// Coordinate-wise sum of two witness vectors.
pub open spec fn vec_add_s(q: u64, a: Seq<Seq<u64>>, b: Seq<Seq<u64>>) -> Seq<Seq<u64>> {
    Seq::new(a.len(), |j: int| ntt_add_s(q, a[j], b[j]))
}

/// A witness vector scaled by one ring element.
pub open spec fn vec_scale_s(q: u64, rho: Seq<u64>, a: Seq<Seq<u64>>) -> Seq<Seq<u64>> {
    Seq::new(a.len(), |j: int| ntt_mul_s(q, rho, a[j]))
}

/// The all-zero witness vector.
pub open spec fn vec_zero_s(edim: nat, len: nat) -> Seq<Seq<u64>> {
    Seq::new(len, |j: int| diag_s(edim, 0u64))
}

/// The linear combination `sum_{i < n} rho_i * w_i`.
pub open spec fn lincomb_s(q: u64, edim: nat, len: nat, rhos: Seq<Seq<u64>>, ws: Seq<Seq<Seq<u64>>>, n: int) -> Seq<Seq<u64>>
    decreases n,
{
    if n <= 0 {
        vec_zero_s(edim, len)
    } else {
        vec_add_s(q, lincomb_s(q, edim, len, rhos, ws, n - 1), vec_scale_s(q, rhos[n - 1], ws[n - 1]))
    }
}

/// Rows of a witness vector all have the ring dimension `edim`.
pub open spec fn vec_dims_ok(a: Seq<Seq<u64>>, edim: nat, len: nat) -> bool {
    a.len() == len && forall|j: int| 0 <= j < a.len() ==> (#[trigger] a[j]).len() == edim
}

proof fn lemma_lincomb_dims(q: u64, edim: nat, len: nat, rhos: Seq<Seq<u64>>, ws: Seq<Seq<Seq<u64>>>, n: int)
    requires
        forall|i: int| 0 <= i < ws.len() ==> vec_dims_ok(#[trigger] ws[i], edim, len),
        n <= ws.len(),
    ensures
        vec_dims_ok(lincomb_s(q, edim, len, rhos, ws, n), edim, len),
    decreases n,
{
    if n > 0 {
        lemma_lincomb_dims(q, edim, len, rhos, ws, n - 1);
    }
}

/// A partial dot product always has the ring dimension.
proof fn lemma_ring_dot_len(q: u64, edim: nat, row: Seq<Seq<u64>>, f: Seq<Seq<u64>>, n: int)
    ensures
        ring_dot_s(q, edim, row, f, n).len() == edim,
    decreases n,
{
    if n > 0 {
        lemma_ring_dot_len(q, edim, row, f, n - 1);
    }
}

/// The dot product of a row with the zero witness is zero.
proof fn lemma_dot_zero(q: u64, edim: nat, row: Seq<Seq<u64>>, len: nat, n: int)
    requires
        q >= 2,
        n <= len,
        n <= row.len(),
        forall|j: int| 0 <= j < row.len() ==> (#[trigger] row[j]).len() == edim,
    ensures
        ring_dot_s(q, edim, row, vec_zero_s(edim, len), n) == diag_s(edim, 0u64),
    decreases n,
{
    if n > 0 {
        lemma_dot_zero(q, edim, row, len, n - 1);
        lemma_ring_dot_len(q, edim, row, vec_zero_s(edim, len), n - 1);
        assert forall|i: int| 0 <= i < edim implies
            ring_dot_s(q, edim, row, vec_zero_s(edim, len), n)[i] == diag_s(edim, 0u64)[i] by {
            crate::zq::lemma_zq_mul_zero(q, row[n - 1][i]);
            crate::zq::lemma_zq_mul_comm(q, row[n - 1][i], 0u64);
        }
        assert(ring_dot_s(q, edim, row, vec_zero_s(edim, len), n) =~= diag_s(edim, 0u64));
    }
}

/// The dot product distributes over witness addition.
proof fn lemma_dot_add(q: u64, edim: nat, row: Seq<Seq<u64>>, f: Seq<Seq<u64>>, g: Seq<Seq<u64>>, n: int)
    requires
        q >= 2,
        forall|j: int| 0 <= j < f.len() ==> (#[trigger] f[j]).len() == edim,
        forall|j: int| 0 <= j < g.len() ==> (#[trigger] g[j]).len() == edim,
        forall|j: int| 0 <= j < row.len() ==> (#[trigger] row[j]).len() == edim,
        f.len() == g.len(),
        n <= f.len(),
        n <= row.len(),
    ensures
        ring_dot_s(q, edim, row, vec_add_s(q, f, g), n)
            == ntt_add_s(q, ring_dot_s(q, edim, row, f, n), ring_dot_s(q, edim, row, g, n)),
    decreases n,
{
    if n <= 0 {
        lemma_ring_dot_len(q, edim, row, f, 0);
        lemma_ring_dot_len(q, edim, row, g, 0);
        assert forall|i: int| 0 <= i < edim implies
            ring_dot_s(q, edim, row, vec_add_s(q, f, g), 0)[i]
                == ntt_add_s(q, ring_dot_s(q, edim, row, f, 0), ring_dot_s(q, edim, row, g, 0))[i] by {
            vstd::arithmetic::div_mod::lemma_small_mod(0nat, q as nat);
        }
        assert(ring_dot_s(q, edim, row, vec_add_s(q, f, g), n)
            =~= ntt_add_s(q, ring_dot_s(q, edim, row, f, n), ring_dot_s(q, edim, row, g, n)));
    } else {
        lemma_dot_add(q, edim, row, f, g, n - 1);
        lemma_ring_dot_len(q, edim, row, vec_add_s(q, f, g), n - 1);
        lemma_ring_dot_len(q, edim, row, f, n - 1);
        lemma_ring_dot_len(q, edim, row, g, n - 1);
        lemma_ring_dot_len(q, edim, row, f, n);
        lemma_ring_dot_len(q, edim, row, g, n);
        assert forall|i: int| 0 <= i < edim implies
            ring_dot_s(q, edim, row, vec_add_s(q, f, g), n)[i]
                == ntt_add_s(q, ring_dot_s(q, edim, row, f, n), ring_dot_s(q, edim, row, g, n))[i] by {
            let a = ring_dot_s(q, edim, row, f, n - 1)[i];
            let b = zq_mul(q, row[n - 1][i], f[n - 1][i]);
            let c = ring_dot_s(q, edim, row, g, n - 1)[i];
            let d = zq_mul(q, row[n - 1][i], g[n - 1][i]);
            // (a + c) + (row * (f + g)) == (a + b) + (c + d)
            crate::zq::lemma_zq_mul_distr(q, row[n - 1][i], f[n - 1][i], g[n - 1][i]);
            crate::zq::lemma_zq_add_shuffle(q, a, c, b, d);
        }
        assert(ring_dot_s(q, edim, row, vec_add_s(q, f, g), n)
            =~= ntt_add_s(q, ring_dot_s(q, edim, row, f, n), ring_dot_s(q, edim, row, g, n)));
    }
}

/// The dot product commutes with scaling the witness.
proof fn lemma_dot_scale(q: u64, edim: nat, row: Seq<Seq<u64>>, rho: Seq<u64>, f: Seq<Seq<u64>>, n: int)
    requires
        q >= 2,
        rho.len() == edim,
        forall|j: int| 0 <= j < f.len() ==> (#[trigger] f[j]).len() == edim,
        forall|j: int| 0 <= j < row.len() ==> (#[trigger] row[j]).len() == edim,
        n <= f.len(),
        n <= row.len(),
    ensures
        ring_dot_s(q, edim, row, vec_scale_s(q, rho, f), n)
            == ntt_mul_s(q, rho, ring_dot_s(q, edim, row, f, n)),
    decreases n,
{
    if n <= 0 {
        lemma_ring_dot_len(q, edim, row, f, 0);
        assert forall|i: int| 0 <= i < edim implies
            ring_dot_s(q, edim, row, vec_scale_s(q, rho, f), 0)[i]
                == ntt_mul_s(q, rho, ring_dot_s(q, edim, row, f, 0))[i] by {
            crate::zq::lemma_zq_mul_zero(q, rho[i]);
        }
        assert(ring_dot_s(q, edim, row, vec_scale_s(q, rho, f), n)
            =~= ntt_mul_s(q, rho, ring_dot_s(q, edim, row, f, n)));
    } else {
        lemma_dot_scale(q, edim, row, rho, f, n - 1);
        lemma_ring_dot_len(q, edim, row, vec_scale_s(q, rho, f), n - 1);
        lemma_ring_dot_len(q, edim, row, f, n - 1);
        lemma_ring_dot_len(q, edim, row, f, n);
        assert forall|i: int| 0 <= i < edim implies
            ring_dot_s(q, edim, row, vec_scale_s(q, rho, f), n)[i]
                == ntt_mul_s(q, rho, ring_dot_s(q, edim, row, f, n))[i] by {
            let a = ring_dot_s(q, edim, row, f, n - 1)[i];
            let m = row[n - 1][i];
            let x = f[n - 1][i];
            let p = rho[i];
            // rho * (a + m x) == rho a + m (rho x)
            crate::zq::lemma_zq_mul_distr(q, p, a, zq_mul(q, m, x));
            crate::zq::lemma_zq_mul_assoc(q, p, m, x);
            crate::zq::lemma_zq_mul_assoc(q, m, p, x);
            crate::zq::lemma_zq_mul_comm(q, p, m);
            crate::zq::lemma_zq_mul_comm(q, zq_mul(q, p, m), x);
            crate::zq::lemma_zq_mul_comm(q, zq_mul(q, m, p), x);
            crate::zq::lemma_zq_mul_comm(q, x, zq_mul(q, m, p));
        }
        assert(ring_dot_s(q, edim, row, vec_scale_s(q, rho, f), n)
            =~= ntt_mul_s(q, rho, ring_dot_s(q, edim, row, f, n)));
    }
}

/// Commitment homomorphism: committing to the linear combination
/// `sum_i rho_i * w_i` of witnesses equals the same linear combination
/// of the individual commitments.  The folding step relies on this.
pub proof fn lemma_commit_homomorphism(q: u64, edim: nat, mat: Seq<Seq<Seq<u64>>>, wlen: nat, rhos: Seq<Seq<u64>>, ws: Seq<Seq<Seq<u64>>>, n: int)
    requires
        q >= 2,
        forall|i: int| 0 <= i < mat.len() ==> (#[trigger] mat[i]).len() == wlen,
        forall|i: int, j: int| 0 <= i < mat.len() && 0 <= j < mat[i].len()
            ==> (#[trigger] mat[i][j]).len() == edim,
        forall|i: int| 0 <= i < rhos.len() ==> (#[trigger] rhos[i]).len() == edim,
        forall|i: int| 0 <= i < ws.len() ==> vec_dims_ok(#[trigger] ws[i], edim, wlen),
        rhos.len() == ws.len(),
        0 <= n <= ws.len(),
    ensures
        commit_s(q, edim, mat, lincomb_s(q, edim, wlen, rhos, ws, n))
            == lincomb_s(q, edim, mat.len(), rhos,
                Seq::new(ws.len(), |i: int| commit_s(q, edim, mat, ws[i])), n),
    decreases n,
{
    lemma_lincomb_dims(q, edim, wlen, rhos, ws, n);
    let cms = Seq::new(ws.len(), |i: int| commit_s(q, edim, mat, ws[i]));
    if n == 0 {
        assert forall|i: int| 0 <= i < mat.len() implies
            commit_s(q, edim, mat, lincomb_s(q, edim, wlen, rhos, ws, 0))[i]
                == lincomb_s(q, edim, mat.len(), rhos, cms, 0)[i] by {
            lemma_dot_zero(q, edim, mat[i], wlen, wlen as int);
            lemma_ring_dot_len(q, edim, mat[i], vec_zero_s(edim, wlen), wlen as int);
        }
        assert(commit_s(q, edim, mat, lincomb_s(q, edim, wlen, rhos, ws, 0))
            =~= lincomb_s(q, edim, mat.len(), rhos, cms, 0));
    } else {
        lemma_commit_homomorphism(q, edim, mat, wlen, rhos, ws, n - 1);
        lemma_lincomb_dims(q, edim, wlen, rhos, ws, n - 1);
        assert forall|i: int| 0 <= i < mat.len() implies
            commit_s(q, edim, mat, lincomb_s(q, edim, wlen, rhos, ws, n))[i]
                == lincomb_s(q, edim, mat.len(), rhos, cms, n)[i] by {
            let prev = lincomb_s(q, edim, wlen, rhos, ws, n - 1);
            let scaled = vec_scale_s(q, rhos[n - 1], ws[n - 1]);
            lemma_dot_add(q, edim, mat[i], prev, scaled, wlen as int);
            lemma_dot_scale(q, edim, mat[i], rhos[n - 1], ws[n - 1], wlen as int);
            assert(commit_s(q, edim, mat, prev)[i] == ring_dot_s(q, edim, mat[i], prev, wlen as int));
            assert(cms[n - 1] == commit_s(q, edim, mat, ws[n - 1]));
        }
        assert(commit_s(q, edim, mat, lincomb_s(q, edim, wlen, rhos, ws, n))
            =~= lincomb_s(q, edim, mat.len(), rhos, cms, n));
    }
}

} // verus!
