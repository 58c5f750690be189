//! Scalar arithmetic in the base field Z_q, for a runtime modulus `q`.
//!
//! Every residue is kept in canonical form, i.e. in `[0, q)`.  The
//! executable operations work through `u128` intermediates so that any
//! odd prime below `2^64` (the Goldilocks-like modulus included) is
//! supported.

use vstd::prelude::*;
use vstd::arithmetic::div_mod::{lemma_mod_bound, lemma_small_mod, lemma_mod_sub_multiples_vanish};

verus! {

/// Canonical residue of `a + b` modulo `q`.
pub open spec fn zq_add(q: u64, a: u64, b: u64) -> u64 {
    (((a + b) % (q as int)) as u64)
}

/// Canonical residue of `a - b` modulo `q`.
pub open spec fn zq_sub(q: u64, a: u64, b: u64) -> u64 {
    (((a - b) % (q as int)) as u64)
}

/// Canonical residue of `a * b` modulo `q`.
pub open spec fn zq_mul(q: u64, a: u64, b: u64) -> u64 {
    (((a * b) % (q as int)) as u64)
}

/// `a^e` modulo `q`, with the convention `a^0 == 1 % q`.
pub open spec fn zq_pow(q: u64, a: u64, e: nat) -> u64
    decreases e,
{
    if e == 0 {
        ((1int % (q as int)) as u64)
    } else {
        zq_mul(q, a, zq_pow(q, a, (e - 1) as nat))
    }
}

pub fn add_mod(q: u64, a: u64, b: u64) -> (r: u64)
    requires
        q >= 2,
        a < q,
        b < q,
    ensures
        r == zq_add(q, a, b),
        r < q,
{
    let s: u128 = a as u128 + b as u128;
    let r: u128 = if s >= q as u128 { s - q as u128 } else { s };
    proof {
        if s >= q as u128 {
            lemma_mod_sub_multiples_vanish((a + b) as int, q as int);
            lemma_small_mod((a + b - q) as nat, q as nat);
        } else {
            lemma_small_mod((a + b) as nat, q as nat);
        }
    }
    r as u64
}

pub fn sub_mod(q: u64, a: u64, b: u64) -> (r: u64)
    requires
        q >= 2,
        a < q,
        b < q,
    ensures
        r == zq_sub(q, a, b),
        r < q,
{
    let s: u128 = a as u128 + q as u128 - b as u128;
    let r: u128 = if s >= q as u128 { s - q as u128 } else { s };
    proof {
        lemma_mod_sub_multiples_vanish((a - b + q) as int, q as int);
        if s >= q as u128 {
            lemma_mod_sub_multiples_vanish((a - b + q + q) as int, q as int);
            lemma_small_mod((a + q - b - q) as nat, q as nat);
        } else {
            lemma_small_mod((a + q - b) as nat, q as nat);
        }
    }
    r as u64
}

pub fn mul_mod(q: u64, a: u64, b: u64) -> (r: u64)
    requires
        q >= 2,
        a < q,
        b < q,
    ensures
        r == zq_mul(q, a, b),
        r < q,
{
    proof {
        vstd::arithmetic::mul::lemma_mul_upper_bound(a as int, u64::MAX as int, b as int, u64::MAX as int);
    }
    let p: u128 = a as u128 * b as u128;
    let r: u128 = p % (q as u128);
    proof {
        lemma_mod_bound((a * b) as int, q as int);
    }
    r as u64
}

/// Canonical residue of an arbitrary `u64`, used when injecting
/// constants or raw entropy into the field.
pub fn reduce_mod(q: u64, x: u64) -> (r: u64)
    requires
        q >= 2,
    ensures
        r == x as int % q as int,
        r < q,
{
    x % q
}

/// Canonical residue of an arbitrary `u128` value.
pub fn reduce_u128_mod(q: u64, x: u128) -> (r: u64)
    requires
        q >= 2,
    ensures
        r == x as int % q as int,
        r < q,
{
    proof {
        lemma_mod_bound(x as int, q as int);
    }
    (x % (q as u128)) as u64
}

/// Rearranging a sum of two reduced sums: both sides reduce `a+b+c+d`.
pub proof fn lemma_zq_add_shuffle(q: u64, a: u64, b: u64, c: u64, d: u64)
    requires
        q >= 2,
    ensures
        zq_add(q, zq_add(q, a, b), zq_add(q, c, d)) == zq_add(q, zq_add(q, a, c), zq_add(q, b, d)),
{
    let qi = q as int;
    lemma_mod_bound((a + b) as int, qi);
    lemma_mod_bound((c + d) as int, qi);
    lemma_mod_bound((a + c) as int, qi);
    lemma_mod_bound((b + d) as int, qi);
    vstd::arithmetic::div_mod::lemma_add_mod_noop((a + b) as int, (c + d) as int, qi);
    vstd::arithmetic::div_mod::lemma_add_mod_noop((a + c) as int, (b + d) as int, qi);
}

/// Multiplication distributes over reduced addition.
pub proof fn lemma_zq_mul_distr(q: u64, x: u64, y: u64, z: u64)
    requires
        q >= 2,
    ensures
        zq_mul(q, x, zq_add(q, y, z)) == zq_add(q, zq_mul(q, x, y), zq_mul(q, x, z)),
{
    let qi = q as int;
    lemma_mod_bound((y + z) as int, qi);
    lemma_mod_bound((x * y) as int, qi);
    lemma_mod_bound((x * z) as int, qi);
    vstd::arithmetic::div_mod::lemma_mul_mod_noop_general(x as int, (y + z) as int, qi);
    assert(x as int * (y + z) == x as int * y + x as int * z) by (nonlinear_arith);
    vstd::arithmetic::div_mod::lemma_add_mod_noop((x * y) as int, (x * z) as int, qi);
}

/// Reduced multiplication is associative.
pub proof fn lemma_zq_mul_assoc(q: u64, x: u64, y: u64, z: u64)
    requires
        q >= 2,
    ensures
        zq_mul(q, x, zq_mul(q, y, z)) == zq_mul(q, zq_mul(q, x, y), z),
{
    let qi = q as int;
    vstd::arithmetic::div_mod::lemma_mul_mod_noop_general(x as int, (y * z) as int, qi);
    vstd::arithmetic::div_mod::lemma_mul_mod_noop_general((x * y) as int, z as int, qi);
    assert(x as int * (y as int * z as int) == (x as int * y as int) * z as int) by (nonlinear_arith);
}

/// Reduced multiplication is commutative.
pub proof fn lemma_zq_mul_comm(q: u64, x: u64, y: u64)
    requires
        q >= 2,
    ensures
        zq_mul(q, x, y) == zq_mul(q, y, x),
{
    assert(x as int * y as int == y as int * x as int) by (nonlinear_arith);
}

/// Multiplying a reduced zero gives zero.
pub proof fn lemma_zq_mul_zero(q: u64, x: u64)
    requires
        q >= 2,
    ensures
        zq_mul(q, x, 0u64) == 0u64,
        zq_add(q, 0u64, 0u64) == 0u64,
{
    assert(x as int * 0 == 0) by (nonlinear_arith);
    lemma_small_mod(0nat, q as nat);
}

} // verus!
