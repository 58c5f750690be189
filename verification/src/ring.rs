//! The cyclotomic ring layer.
//!
//! A ring element exists in two representations: `RqNtt` (NTT form, where
//! addition and multiplication are coordinate-wise over `Z_q`) and
//! `RqCoeff` (coefficient form, on which the balanced-radix decomposition
//! and the low-norm challenge set live).  The two are connected by the
//! CRT maps, which are linear maps given by per-ring parameter tables.
//!
//! Parameters are runtime values gathered in [`RingParams`]: the modulus,
//! the two dimensions, the two CRT matrices and a small table of scalar
//! inverses used by the sumcheck verifier's Lagrange interpolation.

use vstd::prelude::*;
use crate::zq::{zq_add, zq_mul, add_mod, mul_mod, reduce_mod};

verus! {

/// All coordinates of `s` are canonical residues modulo `q`.
pub open spec fn seq_wf(q: u64, s: Seq<u64>) -> bool {
    forall|i: int| 0 <= i < s.len() ==> s[i] < q
}

/// Coordinate-wise sum modulo `q`.
pub open spec fn ntt_add_s(q: u64, a: Seq<u64>, b: Seq<u64>) -> Seq<u64> {
    Seq::new(a.len(), |i: int| zq_add(q, a[i], b[i]))
}

/// Coordinate-wise product modulo `q`.
pub open spec fn ntt_mul_s(q: u64, a: Seq<u64>, b: Seq<u64>) -> Seq<u64> {
    Seq::new(a.len(), |i: int| zq_mul(q, a[i], b[i]))
}

/// Scalar multiple modulo `q`.
pub open spec fn scalar_mul_s(q: u64, k: u64, a: Seq<u64>) -> Seq<u64> {
    Seq::new(a.len(), |i: int| zq_mul(q, k, a[i]))
}

/// The constant (diagonal) embedding of a scalar.
pub open spec fn diag_s(dim: nat, x: u64) -> Seq<u64> {
    Seq::new(dim, |i: int| x)
}

/// Dot product of the first `n` coordinates, modulo `q`.
pub open spec fn dot_s(q: u64, a: Seq<u64>, b: Seq<u64>, n: nat) -> u64
    decreases n,
{
    if n == 0 {
        0u64
    } else {
        zq_add(q, dot_s(q, a, b, (n - 1) as nat), zq_mul(q, a[n - 1], b[n - 1]))
    }
}

/// A ring element in NTT representation: a vector of `Z_q` coordinates
/// on which both addition and multiplication act coordinate-wise.
#[derive(Debug)]
pub struct RqNtt {
    pub q: u64,
    pub c: Vec<u64>,
}

/// A ring element in coefficient representation: the coefficient vector
/// of the underlying polynomial.
#[derive(Debug)]
pub struct RqCoeff {
    pub q: u64,
    pub c: Vec<u64>,
}

impl RqNtt {
    pub open spec fn wf(&self) -> bool {
        self.q >= 2 && seq_wf(self.q, self.c@)
    }

    pub open spec fn dim(&self) -> nat {
        self.c@.len()
    }

    /// The additive identity.
    pub fn zero(q: u64, dim: usize) -> (r: RqNtt)
        requires
            q >= 2,
        ensures
            r.wf(),
            r.q == q,
            r.c@ == diag_s(dim as nat, 0u64),
    {
        let mut c: Vec<u64> = Vec::new();
        let mut i: usize = 0;
        while i < dim
            invariant
                i <= dim,
                c@.len() == i,
                forall|j: int| 0 <= j < i ==> c@[j] == 0u64,
            decreases dim - i,
        {
            c.push(0);
            i = i + 1;
        }
        let r = RqNtt { q, c };
        proof {
            assert(r.c@ =~= diag_s(dim as nat, 0u64));
        }
        r
    }

    /// The constant embedding of an integer: every NTT coordinate holds
    /// the same residue, so ring operations act on it like the scalar.
    pub fn from_u128(q: u64, dim: usize, x: u128) -> (r: RqNtt)
        requires
            q >= 2,
        ensures
            r.wf(),
            r.q == q,
            r.c@ == diag_s(dim as nat, ((x as int % q as int) as u64)),
    {
        let v: u64 = crate::zq::reduce_u128_mod(q, x);
        let mut c: Vec<u64> = Vec::new();
        let mut i: usize = 0;
        while i < dim
            invariant
                i <= dim,
                c@.len() == i,
                forall|j: int| 0 <= j < i ==> c@[j] == v,
            decreases dim - i,
        {
            c.push(v);
            i = i + 1;
        }
        let r = RqNtt { q, c };
        proof {
            assert(r.c@ =~= diag_s(dim as nat, ((x as int % q as int) as u64)));
        }
        r
    }

    pub fn add(&self, other: &RqNtt) -> (r: RqNtt)
        requires
            self.wf(),
            other.wf(),
            self.q == other.q,
            self.dim() == other.dim(),
        ensures
            r.wf(),
            r.q == self.q,
            r.c@ == ntt_add_s(self.q, self.c@, other.c@),
    {
        let dim = self.c.len();
        let mut c: Vec<u64> = Vec::new();
        let mut i: usize = 0;
        while i < dim
            invariant
                i <= dim,
                dim == self.c@.len(),
                dim == other.c@.len(),
                self.wf(),
                other.wf(),
                self.q == other.q,
                c@.len() == i,
                forall|j: int| 0 <= j < i ==> c@[j] == zq_add(self.q, self.c@[j], other.c@[j]),
                forall|j: int| 0 <= j < i ==> c@[j] < self.q,
            decreases dim - i,
        {
            c.push(add_mod(self.q, self.c[i], other.c[i]));
            i = i + 1;
        }
        let r = RqNtt { q: self.q, c };
        proof {
            assert(r.c@ =~= ntt_add_s(self.q, self.c@, other.c@));
        }
        r
    }

    pub fn mul(&self, other: &RqNtt) -> (r: RqNtt)
        requires
            self.wf(),
            other.wf(),
            self.q == other.q,
            self.dim() == other.dim(),
        ensures
            r.wf(),
            r.q == self.q,
            r.c@ == ntt_mul_s(self.q, self.c@, other.c@),
    {
        let dim = self.c.len();
        let mut c: Vec<u64> = Vec::new();
        let mut i: usize = 0;
        while i < dim
            invariant
                i <= dim,
                dim == self.c@.len(),
                dim == other.c@.len(),
                self.wf(),
                other.wf(),
                self.q == other.q,
                c@.len() == i,
                forall|j: int| 0 <= j < i ==> c@[j] == zq_mul(self.q, self.c@[j], other.c@[j]),
                forall|j: int| 0 <= j < i ==> c@[j] < self.q,
            decreases dim - i,
        {
            c.push(mul_mod(self.q, self.c[i], other.c[i]));
            i = i + 1;
        }
        let r = RqNtt { q: self.q, c };
        proof {
            assert(r.c@ =~= ntt_mul_s(self.q, self.c@, other.c@));
        }
        r
    }

    pub fn sub(&self, other: &RqNtt) -> (r: RqNtt)
        requires
            self.wf(),
            other.wf(),
            self.q == other.q,
            self.dim() == other.dim(),
        ensures
            r.wf(),
            r.q == self.q,
            r.c@.len() == self.c@.len(),
            forall|j: int| 0 <= j < r.c@.len() ==> r.c@[j] == crate::zq::zq_sub(self.q, self.c@[j], other.c@[j]),
    {
        let dim = self.c.len();
        let mut c: Vec<u64> = Vec::new();
        let mut i: usize = 0;
        while i < dim
            invariant
                i <= dim,
                dim == self.c@.len(),
                dim == other.c@.len(),
                self.wf(),
                other.wf(),
                self.q == other.q,
                c@.len() == i,
                forall|j: int| 0 <= j < i ==> c@[j] == crate::zq::zq_sub(self.q, self.c@[j], other.c@[j]),
                forall|j: int| 0 <= j < i ==> c@[j] < self.q,
            decreases dim - i,
        {
            c.push(crate::zq::sub_mod(self.q, self.c[i], other.c[i]));
            i = i + 1;
        }
        RqNtt { q: self.q, c }
    }

    /// Structural equality of two elements, usable from contracts.
    pub fn equals(&self, other: &RqNtt) -> (r: bool)
        ensures
            r == (self.q == other.q && self.c@ == other.c@),
    {
        if self.q != other.q {
            return false;
        }
        if self.c.len() != other.c.len() {
            proof {
                assert(self.c@.len() != other.c@.len());
            }
            return false;
        }
        let mut i: usize = 0;
        while i < self.c.len()
            invariant
                i <= self.c@.len(),
                self.c@.len() == other.c@.len(),
                forall|j: int| 0 <= j < i ==> self.c@[j] == other.c@[j],
            decreases self.c@.len() - i,
        {
            if self.c[i] != other.c[i] {
                return false;
            }
            i = i + 1;
        }
        proof {
            assert(self.c@ =~= other.c@);
        }
        true
    }

    pub fn clone_elem(&self) -> (r: RqNtt)
        ensures
            r.q == self.q,
            r.c@ == self.c@,
    {
        let mut c: Vec<u64> = Vec::new();
        let mut i: usize = 0;
        while i < self.c.len()
            invariant
                i <= self.c@.len(),
                c@.len() == i,
                forall|j: int| 0 <= j < i ==> c@[j] == self.c@[j],
            decreases self.c@.len() - i,
        {
            c.push(self.c[i]);
            i = i + 1;
        }
        proof {
            assert(c@ =~= self.c@);
        }
        RqNtt { q: self.q, c }
    }
}

impl RqCoeff {
    pub open spec fn wf(&self) -> bool {
        self.q >= 2 && seq_wf(self.q, self.c@)
    }

    pub open spec fn dim(&self) -> nat {
        self.c@.len()
    }

    pub fn zero(q: u64, dim: usize) -> (r: RqCoeff)
        requires
            q >= 2,
        ensures
            r.wf(),
            r.q == q,
            r.c@ == diag_s(dim as nat, 0u64),
    {
        let mut c: Vec<u64> = Vec::new();
        let mut i: usize = 0;
        while i < dim
            invariant
                i <= dim,
                c@.len() == i,
                forall|j: int| 0 <= j < i ==> c@[j] == 0u64,
            decreases dim - i,
        {
            c.push(0);
            i = i + 1;
        }
        let r = RqCoeff { q, c };
        proof {
            assert(r.c@ =~= diag_s(dim as nat, 0u64));
        }
        r
    }

    /// Build a coefficient-form element from raw coefficients, reducing
    /// each into the canonical range.
    pub fn from_coeffs(q: u64, coeffs: &Vec<u64>) -> (r: RqCoeff)
        requires
            q >= 2,
        ensures
            r.wf(),
            r.q == q,
            r.c@.len() == coeffs@.len(),
            forall|j: int| 0 <= j < coeffs@.len() ==> r.c@[j] == coeffs@[j] as int % q as int,
    {
        let mut c: Vec<u64> = Vec::new();
        let mut i: usize = 0;
        while i < coeffs.len()
            invariant
                q >= 2,
                i <= coeffs@.len(),
                c@.len() == i,
                forall|j: int| 0 <= j < i ==> c@[j] == coeffs@[j] as int % q as int,
                forall|j: int| 0 <= j < i ==> c@[j] < q,
            decreases coeffs@.len() - i,
        {
            c.push(reduce_mod(q, coeffs[i]));
            i = i + 1;
        }
        RqCoeff { q, c }
    }

    pub fn add(&self, other: &RqCoeff) -> (r: RqCoeff)
        requires
            self.wf(),
            other.wf(),
            self.q == other.q,
            self.dim() == other.dim(),
        ensures
            r.wf(),
            r.q == self.q,
            r.c@ == ntt_add_s(self.q, self.c@, other.c@),
    {
        let dim = self.c.len();
        let mut c: Vec<u64> = Vec::new();
        let mut i: usize = 0;
        while i < dim
            invariant
                i <= dim,
                dim == self.c@.len(),
                dim == other.c@.len(),
                self.wf(),
                other.wf(),
                self.q == other.q,
                c@.len() == i,
                forall|j: int| 0 <= j < i ==> c@[j] == zq_add(self.q, self.c@[j], other.c@[j]),
                forall|j: int| 0 <= j < i ==> c@[j] < self.q,
            decreases dim - i,
        {
            c.push(add_mod(self.q, self.c[i], other.c[i]));
            i = i + 1;
        }
        let r = RqCoeff { q: self.q, c };
        proof {
            assert(r.c@ =~= ntt_add_s(self.q, self.c@, other.c@));
        }
        r
    }

    /// Multiply every coefficient by a scalar.
    pub fn scalar_mul(&self, k: u64) -> (r: RqCoeff)
        requires
            self.wf(),
            k < self.q,
        ensures
            r.wf(),
            r.q == self.q,
            r.c@ == scalar_mul_s(self.q, k, self.c@),
    {
        let dim = self.c.len();
        let mut c: Vec<u64> = Vec::new();
        let mut i: usize = 0;
        while i < dim
            invariant
                i <= dim,
                dim == self.c@.len(),
                self.wf(),
                k < self.q,
                c@.len() == i,
                forall|j: int| 0 <= j < i ==> c@[j] == zq_mul(self.q, k, self.c@[j]),
                forall|j: int| 0 <= j < i ==> c@[j] < self.q,
            decreases dim - i,
        {
            c.push(mul_mod(self.q, k, self.c[i]));
            i = i + 1;
        }
        let r = RqCoeff { q: self.q, c };
        proof {
            assert(r.c@ =~= scalar_mul_s(self.q, k, self.c@));
        }
        r
    }

    pub fn equals(&self, other: &RqCoeff) -> (r: bool)
        ensures
            r == (self.q == other.q && self.c@ == other.c@),
    {
        if self.q != other.q {
            return false;
        }
        if self.c.len() != other.c.len() {
            proof {
                assert(self.c@.len() != other.c@.len());
            }
            return false;
        }
        let mut i: usize = 0;
        while i < self.c.len()
            invariant
                i <= self.c@.len(),
                self.c@.len() == other.c@.len(),
                forall|j: int| 0 <= j < i ==> self.c@[j] == other.c@[j],
            decreases self.c@.len() - i,
        {
            if self.c[i] != other.c[i] {
                return false;
            }
            i = i + 1;
        }
        proof {
            assert(self.c@ =~= other.c@);
        }
        true
    }
}

/// The per-ring parameter table: modulus, NTT and coefficient dimensions,
/// the CRT matrices in both directions, and a table of inverses of the
/// small scalars `1..inv.len()` used for Lagrange interpolation.
pub struct RingParams {
    pub q: u64,
    /// NTT-form dimension (number of CRT slots).
    pub e: usize,
    /// Coefficient-form dimension (degree of the ring).
    pub d: usize,
    /// `e x d` matrix of the coefficient-to-NTT linear map.
    pub crt_m: Vec<Vec<u64>>,
    /// `d x e` matrix of the NTT-to-coefficient linear map.
    pub icrt_m: Vec<Vec<u64>>,
    /// `inv[k] * k == 1 (mod q)` for `1 <= k < inv.len()`.
    pub inv: Vec<u64>,
}

pub open spec fn mat_view(m: Seq<Vec<u64>>) -> Seq<Seq<u64>> {
    m.map_values(|row: Vec<u64>| row@)
}

pub open spec fn mat_wf(q: u64, m: Seq<Seq<u64>>, rows: nat, cols: nat) -> bool {
    &&& m.len() == rows
    &&& forall|i: int| 0 <= i < rows ==> (#[trigger] m[i]).len() == cols
    &&& forall|i: int| 0 <= i < rows ==> seq_wf(q, #[trigger] m[i])
}

impl RingParams {
    pub open spec fn wf(&self) -> bool {
        &&& self.q >= 2
        &&& self.e >= 1
        &&& self.d >= 1
        &&& mat_wf(self.q, mat_view(self.crt_m@), self.e as nat, self.d as nat)
        &&& mat_wf(self.q, mat_view(self.icrt_m@), self.d as nat, self.e as nat)
        &&& self.inv@.len() <= self.q
        &&& seq_wf(self.q, self.inv@)
        &&& forall|k: int| 1 <= k < self.inv@.len() ==> zq_mul(self.q, k as u64, #[trigger] self.inv@[k]) == 1u64
    }

    /// Validate a parameter table.  Returns `None` when the dimensions do
    /// not match, an entry is out of range, or the inverse table is wrong.
    pub fn new(q: u64, e: usize, d: usize, crt_m: Vec<Vec<u64>>, icrt_m: Vec<Vec<u64>>, inv: Vec<u64>) -> (r: Option<RingParams>)
        ensures
            r is Some ==> r->0.wf(),
            r is Some ==> r->0.q == q && r->0.e == e && r->0.d == d,
            r is Some ==> mat_view(r->0.crt_m@) == mat_view(crt_m@)
                && mat_view(r->0.icrt_m@) == mat_view(icrt_m@)
                && r->0.inv@ == inv@,
            r is Some <==> {
                &&& q >= 2
                &&& e >= 1
                &&& d >= 1
                &&& mat_wf(q, mat_view(crt_m@), e as nat, d as nat)
                &&& mat_wf(q, mat_view(icrt_m@), d as nat, e as nat)
                &&& inv@.len() <= q
                &&& seq_wf(q, inv@)
                &&& forall|k: int| 1 <= k < inv@.len()
                    ==> zq_mul(q, k as u64, #[trigger] inv@[k]) == 1u64
            },
    {
        if q < 2 || e == 0 || d == 0 {
            return None;
        }
        if !check_matrix(q, &crt_m, e, d) {
            return None;
        }
        if !check_matrix(q, &icrt_m, d, e) {
            return None;
        }
        if inv.len() as u64 > q {
            return None;
        }
        let mut k: usize = 0;
        while k < inv.len()
            invariant
                q >= 2,
                inv@.len() <= q,
                k <= inv@.len(),
                forall|j: int| 0 <= j < k ==> inv@[j] < q,
                forall|j: int| 1 <= j < k ==> zq_mul(q, j as u64, #[trigger] inv@[j]) == 1u64,
            decreases inv@.len() - k,
        {
            if inv[k] >= q {
                return None;
            }
            if k >= 1 {
                if mul_mod(q, k as u64, inv[k]) != 1 {
                    return None;
                }
            }
            k = k + 1;
        }
        Some(RingParams { q, e, d, crt_m, icrt_m, inv })
    }
}

fn check_row(q: u64, row: &Vec<u64>) -> (r: bool)
    ensures
        r == seq_wf(q, row@),
{
    let mut j: usize = 0;
    while j < row.len()
        invariant
            j <= row@.len(),
            forall|b: int| 0 <= b < j ==> row@[b] < q,
        decreases row@.len() - j,
    {
        if row[j] >= q {
            return false;
        }
        j = j + 1;
    }
    true
}

fn check_matrix(q: u64, m: &Vec<Vec<u64>>, rows: usize, cols: usize) -> (r: bool)
    requires
        q >= 2,
    ensures
        r == mat_wf(q, mat_view(m@), rows as nat, cols as nat),
{
    proof {
        assert(mat_view(m@).len() == m@.len());
    }
    if m.len() != rows {
        return false;
    }
    let mut i: usize = 0;
    while i < rows
        invariant
            q >= 2,
            m@.len() == rows,
            mat_view(m@).len() == rows,
            i <= rows,
            forall|a: int| 0 <= a < i ==> (#[trigger] mat_view(m@)[a]).len() == cols as nat,
            forall|a: int| 0 <= a < i ==> seq_wf(q, #[trigger] mat_view(m@)[a]),
        decreases rows - i,
    {
        proof {
            assert(mat_view(m@)[i as int] == m@[i as int]@);
        }
        if m[i].len() != cols {
            return false;
        }
        if !check_row(q, &m[i]) {
            return false;
        }
        i = i + 1;
    }
    true
}

/// Apply one row of a CRT matrix: the dot product with `x` modulo `q`.
fn matrix_row_dot(q: u64, row: &Vec<u64>, x: &Vec<u64>) -> (r: u64)
    requires
        q >= 2,
        row@.len() == x@.len(),
        seq_wf(q, row@),
        seq_wf(q, x@),
    ensures
        r == dot_s(q, row@, x@, row@.len()),
        r < q,
{
    let mut acc: u64 = 0;
    let mut i: usize = 0;
    while i < row.len()
        invariant
            q >= 2,
            row@.len() == x@.len(),
            seq_wf(q, row@),
            seq_wf(q, x@),
            i <= row@.len(),
            acc == dot_s(q, row@, x@, i as nat),
            acc < q,
        decreases row@.len() - i,
    {
        let p = mul_mod(q, row[i], x[i]);
        acc = add_mod(q, acc, p);
        i = i + 1;
    }
    acc
}

/// The full linear map given by a matrix: `r[i] = sum_j m[i][j] * x[j]`.
pub open spec fn mat_apply_s(q: u64, m: Seq<Seq<u64>>, x: Seq<u64>) -> Seq<u64> {
    Seq::new(m.len(), |i: int| dot_s(q, m[i], x, x.len()))
}

fn apply_matrix(q: u64, m: &Vec<Vec<u64>>, x: &Vec<u64>, cols: usize) -> (r: Vec<u64>)
    requires
        q >= 2,
        mat_wf(q, mat_view(m@), m@.len(), cols as nat),
        x@.len() == cols,
        seq_wf(q, x@),
    ensures
        r@.len() == m@.len(),
        seq_wf(q, r@),
        r@ == mat_apply_s(q, mat_view(m@), x@),
{
    let mut out: Vec<u64> = Vec::new();
    let mut i: usize = 0;
    while i < m.len()
        invariant
            q >= 2,
            mat_wf(q, mat_view(m@), m@.len(), cols as nat),
            x@.len() == cols,
            seq_wf(q, x@),
            i <= m@.len(),
            out@.len() == i,
            forall|a: int| 0 <= a < i ==> out@[a] == dot_s(q, mat_view(m@)[a], x@, x@.len()),
            forall|a: int| 0 <= a < i ==> out@[a] < q,
        decreases m@.len() - i,
    {
        proof {
            assert(mat_view(m@)[i as int] == m@[i as int]@);
        }
        let v = matrix_row_dot(q, &m[i], x);
        out.push(v);
        i = i + 1;
    }
    proof {
        assert(out@ =~= mat_apply_s(q, mat_view(m@), x@));
    }
    out
}

/// Model of the coefficient-to-NTT conversion.
pub open spec fn crt_s(p: RingParams, x: Seq<u64>) -> Seq<u64> {
    mat_apply_s(p.q, mat_view(p.crt_m@), x)
}

/// Model of the NTT-to-coefficient conversion.
pub open spec fn icrt_s(p: RingParams, x: Seq<u64>) -> Seq<u64> {
    mat_apply_s(p.q, mat_view(p.icrt_m@), x)
}

impl RingParams {
    /// Convert a coefficient-form element to NTT form through the CRT map.
    pub fn crt(&self, x: &RqCoeff) -> (r: RqNtt)
        requires
            self.wf(),
            x.wf(),
            x.q == self.q,
            x.dim() == self.d as nat,
        ensures
            r.wf(),
            r.q == self.q,
            r.c@.len() == self.e as nat,
            r.c@ == crt_s(*self, x.c@),
    {
        let c = apply_matrix(self.q, &self.crt_m, &x.c, self.d);
        RqNtt { q: self.q, c }
    }

    /// Convert an NTT-form element back to coefficient form.
    pub fn icrt(&self, x: &RqNtt) -> (r: RqCoeff)
        requires
            self.wf(),
            x.wf(),
            x.q == self.q,
            x.dim() == self.e as nat,
        ensures
            r.wf(),
            r.q == self.q,
            r.c@.len() == self.d as nat,
            r.c@ == icrt_s(*self, x.c@),
    {
        let c = apply_matrix(self.q, &self.icrt_m, &x.c, self.e);
        RqCoeff { q: self.q, c }
    }
}

} // verus!
