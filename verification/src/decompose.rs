//! Balanced radix-B decomposition of coefficient-form ring elements.
//!
//! Every residue `x` modulo `q` stands for the balanced representative in
//! `(-q/2, q/2]`.  Decomposition splits that representative into `L`
//! digits in `(-B/2, B/2]`, least significant first; each digit is stored
//! back as a canonical residue.  Recombining the digits as
//! `sum_k B^k * digit_k` returns the original residue whenever the
//! representative fits into `L` digits.

use vstd::prelude::*;
use vstd::arithmetic::power::pow;
use vstd::arithmetic::div_mod::{
    lemma_fundamental_div_mod, lemma_small_mod, lemma_mod_bound, lemma_mod_multiples_vanish,
    lemma_mod_multiples_basic, lemma_div_multiples_vanish, lemma_add_mod_noop,
    lemma_mul_mod_noop_general, lemma_div_is_ordered, lemma_div_is_ordered_by_denominator,
};
use crate::zq::{zq_add, zq_mul};

verus! {

/// The balanced representative in `(-q/2, q/2]` of a canonical residue.
pub open spec fn balanced_of(q: u64, x: u64) -> int {
    if 2 * x <= q {
        x as int
    } else {
        x as int - q
    }
}

/// The balanced base-`b` digit of `v`, in `(-b/2, b/2]`.
pub open spec fn bal_digit(v: int, b: int) -> int {
    let r = v % b;
    if 2 * r <= b {
        r
    } else {
        r - b
    }
}

/// What remains of `v` after its balanced digit is removed.
pub open spec fn bal_next(v: int, b: int) -> int {
    (v - bal_digit(v, b)) / b
}

/// The first `l` balanced digits of `v`, least significant first.
pub open spec fn bal_digits(v: int, b: int, l: nat) -> Seq<int>
    decreases l,
{
    if l == 0 {
        Seq::empty()
    } else {
        seq![bal_digit(v, b)] + bal_digits(bal_next(v, b), b, (l - 1) as nat)
    }
}

/// What remains of `v` after `l` digits have been removed.
pub open spec fn bal_rest(v: int, b: int, l: nat) -> int
    decreases l,
{
    if l == 0 {
        v
    } else {
        bal_rest(bal_next(v, b), b, (l - 1) as nat)
    }
}

/// `sum_k b^k * ds[k]` over the integers.
pub open spec fn recomb_int(ds: Seq<int>, b: int) -> int
    decreases ds.len(),
{
    if ds.len() == 0 {
        0
    } else {
        ds[0] + b * recomb_int(ds.subrange(1, ds.len() as int), b)
    }
}

/// The canonical residue of a balanced digit.
pub open spec fn digit_residue(q: u64, d: int) -> u64 {
    if d >= 0 {
        d as u64
    } else {
        (d + q) as u64
    }
}

/// The digit residues of the balanced decomposition of a residue `x`.
pub open spec fn bal_digit_residues(q: u64, x: u64, b: u64, l: nat) -> Seq<u64> {
    bal_digits(balanced_of(q, x), b as int, l).map_values(|d: int| digit_residue(q, d))
}

/// `sum_k b^k * ds[k]` in `Z_q`.
pub open spec fn recomb_res(q: u64, ds: Seq<u64>, b: u64) -> u64
    decreases ds.len(),
{
    if ds.len() == 0 {
        0u64
    } else {
        zq_add(q, ds[0], zq_mul(q, b, recomb_res(q, ds.subrange(1, ds.len() as int), b)))
    }
}

/// The balanced digit lies in `(-b/2, b/2]` and dividing it out is exact.
proof fn lemma_bal_digit(v: int, b: int)
    requires
        b >= 2,
    ensures
        2 * bal_digit(v, b) <= b,
        -b < 2 * bal_digit(v, b),
        v == b * bal_next(v, b) + bal_digit(v, b),
{
    let r = v % b;
    lemma_mod_bound(v, b);
    lemma_fundamental_div_mod(v, b);
    let d = bal_digit(v, b);
    if 2 * r <= b {
        assert(v - d == b * (v / b));
        lemma_div_multiples_vanish(v / b, b);
    } else {
        assert(v - d == b * (v / b + 1)) by (nonlinear_arith)
            requires v == b * (v / b) + r && d == r - b,
        ;
        lemma_div_multiples_vanish(v / b + 1, b);
    }
}

/// All digits of a balanced decomposition lie in `(-b/2, b/2]`.
proof fn lemma_bal_digits_bounds(v: int, b: int, l: nat)
    requires
        b >= 2,
    ensures
        forall|k: int| 0 <= k < l ==>
            -b < 2 * #[trigger] bal_digits(v, b, l)[k] && 2 * bal_digits(v, b, l)[k] <= b,
        bal_digits(v, b, l).len() == l,
    decreases l,
{
    if l > 0 {
        lemma_bal_digit(v, b);
        lemma_bal_digits_bounds(bal_next(v, b), b, (l - 1) as nat);
        assert forall|k: int| 0 <= k < l implies
            -b < 2 * #[trigger] bal_digits(v, b, l)[k] && 2 * bal_digits(v, b, l)[k] <= b
        by {
            if k > 0 {
                assert(bal_digits(v, b, l)[k] == bal_digits(bal_next(v, b), b, (l - 1) as nat)[k - 1]);
            }
        }
    }
}

/// Recombining `l` digits recovers `v` up to the truncated tail.
proof fn lemma_digits_recombine(v: int, b: int, l: nat)
    requires
        b >= 2,
    ensures
        v == recomb_int(bal_digits(v, b, l), b) + pow(b, l) * bal_rest(v, b, l),
    decreases l,
{
    reveal(pow);
    if l == 0 {
        assert(pow(b, 0) == 1);
    } else {
        let v1 = bal_next(v, b);
        let d = bal_digit(v, b);
        lemma_bal_digit(v, b);
        lemma_digits_recombine(v1, b, (l - 1) as nat);
        let ds = bal_digits(v, b, l);
        let ds1 = bal_digits(v1, b, (l - 1) as nat);
        assert(ds.subrange(1, ds.len() as int) =~= ds1);
        let rec1 = recomb_int(ds1, b);
        let rest = bal_rest(v1, b, (l - 1) as nat);
        assert(bal_rest(v, b, l) == rest);
        assert(v == b * (rec1 + pow(b, (l - 1) as nat) * rest) + d);
        assert(b * (rec1 + pow(b, (l - 1) as nat) * rest)
            == b * rec1 + (b * pow(b, (l - 1) as nat)) * rest) by (nonlinear_arith);
        assert(pow(b, l) == b * pow(b, (l - 1) as nat));
    }
}

/// Recombination in `Z_q` of the digit residues agrees with the integer
/// recombination taken modulo `q`.
proof fn lemma_recomb_residues(q: u64, ds: Seq<int>, b: u64)
    requires
        q >= 2,
        b < q,
        forall|k: int| 0 <= k < ds.len() ==> -(q as int) < #[trigger] ds[k] < q as int,
    ensures
        recomb_res(q, ds.map_values(|d: int| digit_residue(q, d)), b) as int
            == recomb_int(ds, b as int) % (q as int),
    decreases ds.len(),
{
    let qi = q as int;
    let rs = ds.map_values(|d: int| digit_residue(q, d));
    if ds.len() == 0 {
        lemma_small_mod(0, q as nat);
    } else {
        let tail = ds.subrange(1, ds.len() as int);
        lemma_recomb_residues(q, tail, b);
        assert(rs.subrange(1, rs.len() as int) =~= tail.map_values(|d: int| digit_residue(q, d)));
        let rec_tail = recomb_int(tail, b as int);
        let res_tail = recomb_res(q, rs.subrange(1, rs.len() as int), b);
        // res_tail == rec_tail % q
        lemma_mod_bound(rec_tail, qi);
        // zq_mul(q, b, res_tail) == (b * rec_tail) % q
        lemma_mul_mod_noop_general(b as int, rec_tail, qi);
        assert(zq_mul(q, b, res_tail) as int == (b as int * rec_tail) % qi);
        // digit residue of head is congruent to the head
        let d0 = ds[0];
        let r0 = digit_residue(q, d0);
        assert(r0 as int % qi == d0 % qi) by {
            if d0 >= 0 {
                lemma_small_mod(d0 as nat, q as nat);
            } else {
                vstd::arithmetic::div_mod::lemma_mod_add_multiples_vanish(d0, qi);
                lemma_small_mod((d0 + qi) as nat, q as nat);
            }
        };
        lemma_mod_bound(b as int * rec_tail, qi);
        lemma_add_mod_noop(d0, b as int * rec_tail, qi);
        assert(zq_add(q, r0, zq_mul(q, b, res_tail)) as int
            == (r0 as int % qi + (b as int * rec_tail) % qi) % qi) by {
            lemma_small_mod(r0 as nat, q as nat);
            lemma_add_mod_noop(r0 as int, (b as int * rec_tail) % qi, qi);
            lemma_mod_bound((b as int * rec_tail) % qi, qi);
            lemma_small_mod(((b as int * rec_tail) % qi) as nat, q as nat);
        };
    }
}

/// Balanced decomposition round trip: when the representative of `x`
/// fits into `l` balanced digits, recombining the digit residues with
/// powers of `b` yields `x` again.
pub proof fn lemma_balanced_round_trip(q: u64, x: u64, b: u64, l: nat)
    requires
        q >= 2,
        x < q,
        2 <= b < q,
        bal_rest(balanced_of(q, x), b as int, l) == 0,
    ensures
        recomb_res(q, bal_digit_residues(q, x, b, l), b) == x,
{
    let qi = q as int;
    let v = balanced_of(q, x);
    let ds = bal_digits(v, b as int, l);
    lemma_digits_recombine(v, b as int, l);
    assert(recomb_int(ds, b as int) == v) by {
        assert(pow(b as int, l) * 0 == 0) by (nonlinear_arith);
    };
    lemma_bal_digits_bounds(v, b as int, l);
    assert(forall|k: int| 0 <= k < ds.len() ==> -(qi) < #[trigger] ds[k] < qi);
    lemma_recomb_residues(q, ds, b);
    assert(v % qi == x as int) by {
        if 2 * x <= q {
            lemma_small_mod(x as nat, q as nat);
        } else {
            vstd::arithmetic::div_mod::lemma_mod_add_multiples_vanish(x as int - qi, qi);
            lemma_small_mod(x as nat, q as nat);
        }
    };
}

/// Split one canonical residue into `l` balanced digit residues,
/// least significant digit first.
pub fn decompose_scalar(q: u64, x: u64, b: u64, l: usize) -> (r: Vec<u64>)
    requires
        q >= 2,
        x < q,
        2 <= b < q,
    ensures
        r@ == bal_digit_residues(q, x, b, l as nat),
        r@.len() == l,
        crate::ring::seq_wf(q, r@),
{
    let ghost v0 = balanced_of(q, x);
    let mut neg: bool = false;
    let mut mag: u64 = x;
    if x > q / 2 {
        neg = true;
        mag = q - x;
    }
    proof {
        lemma_fundamental_div_mod(q as int, 2);
        if x > q / 2 {
            assert(2 * x > q);
            assert(v0 == -(mag as int));
        } else {
            assert(2 * x <= q);
            assert(v0 == mag as int);
        }
    }
    let mut out: Vec<u64> = Vec::new();
    let mut k: usize = 0;
    while k < l
        invariant
            q >= 2,
            2 <= b < q,
            mag <= q,
            k <= l,
            out@.len() == k,
            bal_rest(v0, b as int, k as nat) == (if neg { -(mag as int) } else { mag as int }),
            out@ == bal_digits(v0, b as int, k as nat).map_values(|d: int| digit_residue(q, d)),
            crate::ring::seq_wf(q, out@),
        decreases l - k,
    {
        let ghost v = bal_rest(v0, b as int, k as nat);
        let r_u: u64 = mag % b;
        let quo: u64 = mag / b;
        proof {
            lemma_fundamental_div_mod(mag as int, b as int);
            lemma_mod_bound(mag as int, b as int);
            // quo + 1 stays within [0, q]
            lemma_div_is_ordered(mag as int, q as int, b as int);
            lemma_div_is_ordered_by_denominator(q as int, 2, b as int);
            lemma_fundamental_div_mod(q as int, 2);
            assert(quo + 1 <= q);
        }
        let residue: u64;
        let new_mag: u64;
        let ghost d = bal_digit(v, b as int);
        if !neg {
            // v == mag, so v % b == r_u.
            if (2 as u128) * (r_u as u128) <= b as u128 {
                residue = r_u;
                new_mag = quo;
                proof {
                    assert(d == r_u);
                    assert(v - d == b as int * (quo as int));
                    lemma_div_multiples_vanish(quo as int, b as int);
                    assert(bal_next(v, b as int) == new_mag as int);
                }
            } else {
                residue = q - (b - r_u);
                new_mag = quo + 1;
                proof {
                    assert(d == r_u - b);
                    assert(v - d == b as int * (quo as int + 1)) by (nonlinear_arith)
                        requires v == mag as int && mag as int == b as int * (quo as int) + r_u as int && d == r_u - b,
                    ;
                    lemma_div_multiples_vanish(quo as int + 1, b as int);
                    assert(bal_next(v, b as int) == new_mag as int);
                    assert(digit_residue(q, d) == residue);
                }
            }
        } else {
            // v == -mag; its Euclidean remainder modulo b is b - r_u (or 0).
            proof {
                lemma_mod_multiples_vanish(-(quo as int) - 1, (b - r_u) as int, b as int);
                assert(b as int * (-(quo as int) - 1) + (b - r_u) as int == -(mag as int)) by (nonlinear_arith)
                    requires mag as int == b as int * (quo as int) + r_u as int && r_u < b,
                ;
                if r_u == 0 {
                    lemma_mod_multiples_basic(1, b as int);
                    lemma_mod_multiples_vanish(-(quo as int), 0, b as int);
                } else {
                    lemma_small_mod((b - r_u) as nat, b as nat);
                }
            }
            if r_u == 0 {
                residue = 0;
                new_mag = quo;
                proof {
                    assert((b as int * (-(quo as int) - 1) + (b - r_u) as int) % (b as int)
                        == (b - r_u) as int % (b as int));
                    assert(v % (b as int) == 0);
                    assert(d == 0);
                    assert(v - d == b as int * (-(quo as int))) by (nonlinear_arith)
                        requires v == -(mag as int) && mag as int == b as int * (quo as int) + r_u as int && r_u == 0 && d == 0,
                    ;
                    lemma_div_multiples_vanish(-(quo as int), b as int);
                    assert(bal_next(v, b as int) == -(new_mag as int));
                }
            } else if (2 as u128) * ((b - r_u) as u128) <= b as u128 {
                residue = b - r_u;
                new_mag = quo + 1;
                proof {
                    assert(v % (b as int) == (b - r_u) as int);
                    assert(d == (b - r_u) as int);
                    assert(v - d == b as int * (-(quo as int) - 1)) by (nonlinear_arith)
                        requires v == -(mag as int) && mag as int == b as int * (quo as int) + r_u as int && d == (b - r_u) as int,
                    ;
                    lemma_div_multiples_vanish(-(quo as int) - 1, b as int);
                    assert(bal_next(v, b as int) == -(new_mag as int));
                    assert(digit_residue(q, d) == residue);
                }
            } else {
                residue = q - r_u;
                new_mag = quo;
                proof {
                    assert(v % (b as int) == (b - r_u) as int);
                    assert(d == (b - r_u) as int - b as int);
                    assert(d == -(r_u as int));
                    assert(v - d == b as int * (-(quo as int))) by (nonlinear_arith)
                        requires v == -(mag as int) && mag as int == b as int * (quo as int) + r_u as int && d == -(r_u as int),
                    ;
                    lemma_div_multiples_vanish(-(quo as int), b as int);
                    assert(bal_next(v, b as int) == -(new_mag as int));
                    assert(digit_residue(q, d) == residue);
                }
            }
        }
        out.push(residue);
        proof {
            lemma_bal_digits_snoc(v0, b as int, k as nat);
            assert(out@ =~= bal_digits(v0, b as int, (k + 1) as nat).map_values(
                |dd: int| digit_residue(q, dd)));
        }
        mag = new_mag;
        neg = neg && true;
        k = k + 1;
    }
    out
}

/// Unfolding a balanced decomposition one digit at a time from the end.
proof fn lemma_bal_digits_snoc(v: int, b: int, k: nat)
    requires
        b >= 2,
    ensures
        bal_digits(v, b, k + 1) == bal_digits(v, b, k).push(bal_digit(bal_rest(v, b, k), b)),
        bal_rest(v, b, k + 1) == bal_next(bal_rest(v, b, k), b),
    decreases k,
{
    if k == 0 {
        assert(bal_digits(bal_next(v, b), b, 0) =~= Seq::empty());
        assert(bal_digits(v, b, 0) =~= Seq::empty());
        assert(bal_digits(v, b, 1) == seq![bal_digit(v, b)] + bal_digits(bal_next(v, b), b, 0));
        assert(bal_digits(v, b, 1) =~= bal_digits(v, b, 0).push(bal_digit(v, b)));
        assert(bal_rest(v, b, 1) == bal_rest(bal_next(v, b), b, 0));
        assert(bal_rest(v, b, 0) == v);
    } else {
        lemma_bal_digits_snoc(bal_next(v, b), b, (k - 1) as nat);
        assert(bal_digits(v, b, k + 1) == seq![bal_digit(v, b)] + bal_digits(bal_next(v, b), b, k));
        assert(bal_digits(v, b, k) == seq![bal_digit(v, b)] + bal_digits(bal_next(v, b), b, (k - 1) as nat));
        assert(bal_digits(v, b, k + 1) =~= bal_digits(v, b, k).push(
            bal_digit(bal_rest(v, b, k), b)));
        assert(bal_rest(v, b, k + 1) == bal_rest(bal_next(v, b), b, k));
        assert(bal_rest(v, b, k) == bal_rest(bal_next(v, b), b, (k - 1) as nat));
    }
}

/// The `k`-th balanced limb of a coefficient-form element: coefficient
/// `j` of the result is digit `k` of coefficient `j` of `x`.
pub fn limb_of_elem(q: u64, x: &crate::ring::RqCoeff, b: u64, l: usize, k: usize) -> (r: crate::ring::RqCoeff)
    requires
        x.wf(),
        x.q == q,
        2 <= b < q,
        k < l,
    ensures
        r.wf(),
        r.q == q,
        r.c@.len() == x.c@.len(),
        forall|j: int| 0 <= j < x.c@.len()
            ==> r.c@[j] == bal_digit_residues(q, x.c@[j], b, l as nat)[k as int],
{
    let mut c: Vec<u64> = Vec::new();
    let mut j: usize = 0;
    while j < x.c.len()
        invariant
            x.wf(),
            x.q == q,
            2 <= b < q,
            k < l,
            j <= x.c@.len(),
            c@.len() == j,
            forall|a: int| 0 <= a < j ==> c@[a] == bal_digit_residues(q, x.c@[a], b, l as nat)[k as int],
            forall|a: int| 0 <= a < j ==> c@[a] < q,
        decreases x.c@.len() - j,
    {
        let digits = decompose_scalar(q, x.c[j], b, l);
        c.push(digits[k]);
        j = j + 1;
    }
    crate::ring::RqCoeff { q, c }
}

/// Vertical balanced decomposition of a coefficient-form slice: limb `k`
/// of the result holds digit `k` of every input element, limb-major and
/// least significant limb first.
pub fn decompose_balanced_slice(q: u64, f: &Vec<crate::ring::RqCoeff>, b: u64, l: usize) -> (r: Vec<Vec<crate::ring::RqCoeff>>)
    requires
        2 <= b < q,
        forall|i: int| 0 <= i < f@.len() ==> (#[trigger] f@[i]).wf(),
        forall|i: int| 0 <= i < f@.len() ==> (#[trigger] f@[i]).q == q,
    ensures
        r@.len() == l,
        forall|k: int| 0 <= k < l ==> (#[trigger] r@[k])@.len() == f@.len(),
        forall|k: int, i: int| 0 <= k < l && 0 <= i < f@.len()
            ==> (#[trigger] r@[k]@[i]).wf() && r@[k]@[i].q == q
                && r@[k]@[i].c@.len() == f@[i].c@.len(),
        forall|k: int, i: int, j: int| 0 <= k < l && 0 <= i < f@.len() && 0 <= j < f@[i].c@.len()
            ==> (#[trigger] r@[k]@[i].c@[j]) == bal_digit_residues(q, f@[i].c@[j], b, l as nat)[k],
{
    let mut out: Vec<Vec<crate::ring::RqCoeff>> = Vec::new();
    let mut k: usize = 0;
    while k < l
        invariant
            2 <= b < q,
            forall|i: int| 0 <= i < f@.len() ==> (#[trigger] f@[i]).wf(),
            forall|i: int| 0 <= i < f@.len() ==> (#[trigger] f@[i]).q == q,
            k <= l,
            out@.len() == k,
            forall|a: int| 0 <= a < k ==> (#[trigger] out@[a])@.len() == f@.len(),
            forall|a: int, i: int| 0 <= a < k && 0 <= i < f@.len()
                ==> (#[trigger] out@[a]@[i]).wf() && out@[a]@[i].q == q
                    && out@[a]@[i].c@.len() == f@[i].c@.len(),
            forall|a: int, i: int, j: int| 0 <= a < k && 0 <= i < f@.len() && 0 <= j < f@[i].c@.len()
                ==> (#[trigger] out@[a]@[i].c@[j]) == bal_digit_residues(q, f@[i].c@[j], b, l as nat)[a],
        decreases l - k,
    {
        let mut limb: Vec<crate::ring::RqCoeff> = Vec::new();
        let mut i: usize = 0;
        while i < f.len()
            invariant
                2 <= b < q,
                k < l,
                forall|a: int| 0 <= a < f@.len() ==> (#[trigger] f@[a]).wf(),
                forall|a: int| 0 <= a < f@.len() ==> (#[trigger] f@[a]).q == q,
                i <= f@.len(),
                limb@.len() == i,
                forall|a: int| 0 <= a < i ==> (#[trigger] limb@[a]).wf() && limb@[a].q == q
                    && limb@[a].c@.len() == f@[a].c@.len(),
                forall|a: int, j: int| 0 <= a < i && 0 <= j < f@[a].c@.len()
                    ==> (#[trigger] limb@[a].c@[j]) == bal_digit_residues(q, f@[a].c@[j], b, l as nat)[k as int],
            decreases f@.len() - i,
        {
            limb.push(limb_of_elem(q, &f[i], b, l, k));
            i = i + 1;
        }
        out.push(limb);
        k = k + 1;
    }
    out
}

/// Recombine digit residues with powers of `b`, Horner style.
pub fn recombine_scalar(q: u64, digits: &Vec<u64>, b: u64) -> (r: u64)
    requires
        q >= 2,
        b < q,
        crate::ring::seq_wf(q, digits@),
    ensures
        r == recomb_res(q, digits@, b),
        r < q,
{
    let mut acc: u64 = 0;
    let mut k: usize = digits.len();
    while k > 0
        invariant
            q >= 2,
            b < q,
            crate::ring::seq_wf(q, digits@),
            k <= digits@.len(),
            acc == recomb_res(q, digits@.subrange(k as int, digits@.len() as int), b),
            acc < q,
        decreases k,
    {
        k = k - 1;
        let t = crate::zq::mul_mod(q, b, acc);
        acc = crate::zq::add_mod(q, digits[k], t);
        proof {
            assert(digits@.subrange(k as int, digits@.len() as int).subrange(
                1, digits@.len() - k as int) =~= digits@.subrange(k + 1, digits@.len() as int));
        }
    }
    proof {
        assert(digits@.subrange(0, digits@.len() as int) =~= digits@);
    }
    acc
}

} // verus!
