//! Tests of the base layers: modular arithmetic, balanced decomposition,
//! the Ajtai commitment, the sumcheck protocol and proof serialization.

use latticefold::ring::{RingParams, RqNtt, RqCoeff};
use latticefold::decompose::{decompose_scalar, recombine_scalar, decompose_balanced_slice};
use latticefold::commitment::AjtaiCommitmentScheme;
use latticefold::commitment::CommitmentError;
use latticefold::mle::DenseMultilinearExtension;
use latticefold::sumcheck::{MLSumcheck, VirtualPolynomial, SumCheckError};
use latticefold::transcript::FsTranscript;
use latticefold::serialize::{serialize_proof, deserialize_proof};

const Q_DILITHIUM: u64 = 8380417;
const Q_BABYBEAR: u64 = 2013265921;
const Q_STARK: u64 = 3221225473;
const Q_GOLDILOCKS: u64 = 18446744069414584321;
const Q_FROG: u64 = 2281701377;

fn powmod(q: u64, mut a: u64, mut e: u64) -> u64 {
    let mut r: u128 = 1;
    let mut b: u128 = a as u128 % q as u128;
    while e > 0 {
        if e & 1 == 1 {
            r = r * b % q as u128;
        }
        b = b * b % q as u128;
        e >>= 1;
    }
    let _ = &mut a;
    r as u64
}

fn identity_params(q: u64, dim: usize, inv_len: usize) -> RingParams {
    let mut ident = Vec::new();
    for i in 0..dim {
        let mut row = vec![0u64; dim];
        row[i] = 1;
        ident.push(row);
    }
    let mut inv = vec![0u64; inv_len];
    for k in 1..inv_len {
        inv[k] = powmod(q, k as u64, q - 2);
    }
    RingParams::new(q, dim, dim, ident.clone(), ident, inv).expect("valid parameter table")
}

struct Lcg(u64);
impl Lcg {
    fn next(&mut self) -> u64 {
        self.0 = self.0.wrapping_mul(6364136223846793005).wrapping_add(1442695040888963407);
        self.0 >> 16
    }
}

#[test]
fn test_commit_ntt() {
    const WITNESS_SIZE: usize = 1 << 15;
    const OUTPUT_SIZE: usize = 9;
    let q = Q_DILITHIUM;
    let mut matrix = Vec::new();
    for i in 0..OUTPUT_SIZE {
        let mut row = Vec::new();
        for j in 0..WITNESS_SIZE {
            row.push(RqNtt::from_u128(q, 1, (i * WITNESS_SIZE + j) as u128));
        }
        matrix.push(row);
    }
    let ajtai = AjtaiCommitmentScheme::try_from(q, 1, OUTPUT_SIZE, WITNESS_SIZE, matrix)
        .expect("dimensions are right");
    let witness: Vec<RqNtt> = (0..WITNESS_SIZE).map(|_| RqNtt::from_u128(q, 1, 2u128)).collect();
    let committed = ajtai.commit_ntt(&witness).expect("witness length matches");
    for (i, x) in committed.cm.iter().enumerate() {
        let expected: u128 =
            (WITNESS_SIZE as u128) * (2 * i as u128 * WITNESS_SIZE as u128 + (WITNESS_SIZE as u128 - 1));
        assert_eq!(x.c[0], (expected % q as u128) as u64);
    }
}

#[test]
fn test_commit_wrong_witness_length() {
    let q = Q_BABYBEAR;
    let matrix: Vec<Vec<RqNtt>> = (0..2)
        .map(|_| (0..4).map(|_| RqNtt::from_u128(q, 1, 1)).collect())
        .collect();
    let ajtai = AjtaiCommitmentScheme::try_from(q, 1, 2, 4, matrix).unwrap();
    let witness: Vec<RqNtt> = (0..3).map(|_| RqNtt::from_u128(q, 1, 1)).collect();
    match ajtai.commit_ntt(&witness) {
        Err(CommitmentError::WrongWitnessLength(got, want)) => {
            assert_eq!(got, 3);
            assert_eq!(want, 4);
        },
        _ => panic!("expected a witness length error"),
    }
}

#[test]
fn test_wrong_ajtai_matrix_dimensions() {
    let q = Q_BABYBEAR;
    let matrix: Vec<Vec<RqNtt>> = (0..3)
        .map(|_| (0..4).map(|_| RqNtt::from_u128(q, 1, 1)).collect())
        .collect();
    match AjtaiCommitmentScheme::try_from(q, 1, 2, 4, matrix) {
        Err(CommitmentError::WrongAjtaiMatrixDimensions(_, _, c, w)) => {
            assert_eq!(c, 2);
            assert_eq!(w, 4);
        },
        _ => panic!("expected a dimension error"),
    }
}

#[test]
fn test_commit_homomorphism() {
    // commit(rho1 w1 + rho2 w2) == rho1 commit(w1) + rho2 commit(w2)
    let q = Q_BABYBEAR;
    let mut rng = Lcg(7);
    let dim = 2usize;
    let w_cols = 6usize;
    let c_rows = 3usize;
    let mut matrix = Vec::new();
    for _ in 0..c_rows {
        let mut row = Vec::new();
        for _ in 0..w_cols {
            row.push(RqNtt {
                q,
                c: (0..dim).map(|_| rng.next() % q).collect(),
            });
        }
        matrix.push(row);
    }
    let ajtai = AjtaiCommitmentScheme::try_from(q, dim, c_rows, w_cols, matrix).unwrap();
    let rand_vec = |rng: &mut Lcg| -> Vec<RqNtt> {
        (0..w_cols)
            .map(|_| RqNtt { q, c: (0..dim).map(|_| rng.next() % q).collect() })
            .collect()
    };
    let w1 = rand_vec(&mut rng);
    let w2 = rand_vec(&mut rng);
    let rho1 = RqNtt { q, c: (0..dim).map(|_| rng.next() % q).collect() };
    let rho2 = RqNtt { q, c: (0..dim).map(|_| rng.next() % q).collect() };
    let combo: Vec<RqNtt> = (0..w_cols)
        .map(|j| rho1.mul(&w1[j]).add(&rho2.mul(&w2[j])))
        .collect();
    let left = ajtai.commit_ntt(&combo).unwrap();
    let c1 = ajtai.commit_ntt(&w1).unwrap();
    let c2 = ajtai.commit_ntt(&w2).unwrap();
    for i in 0..c_rows {
        let right = rho1.mul(&c1.cm[i]).add(&rho2.mul(&c2.cm[i]));
        assert!(left.cm[i].equals(&right));
    }
}

#[test]
fn test_decomposition_round_trip() {
    // For balanced radix decompositions that fit their limbs,
    // sum_k B^k * limb_k recovers the original residue.
    let q = 97u64;
    let b = 4u64;
    let l = 4usize;
    for x in 0..q {
        let digits = decompose_scalar(q, x, b, l);
        assert_eq!(digits.len(), l);
        let back = recombine_scalar(q, &digits, b);
        assert_eq!(back, x, "round trip failed for {x}");
    }
}

#[test]
fn test_decompose_slice_round_trip() {
    let q = Q_BABYBEAR;
    let b = 1 << 8;
    let l = 4usize;
    let mut rng = Lcg(99);
    let f: Vec<RqCoeff> = (0..5)
        .map(|_| RqCoeff::from_coeffs(q, &(0..3).map(|_| rng.next() % q).collect()))
        .collect();
    let limbs = decompose_balanced_slice(q, &f, b, l);
    assert_eq!(limbs.len(), l);
    for i in 0..f.len() {
        for j in 0..3 {
            let digits: Vec<u64> = (0..l).map(|k| limbs[k][i].c[j]).collect();
            let back = recombine_scalar(q, &digits, b);
            assert_eq!(back, f[i].c[j]);
        }
    }
}

fn rand_poly(q: u64, nvars: usize, n_mles: usize, rng: &mut Lcg) -> (VirtualPolynomial, RqNtt) {
    let len = 1usize << nvars;
    let mut mles = Vec::new();
    for _ in 0..n_mles {
        let evals: Vec<RqNtt> = (0..len).map(|_| RqNtt::from_u128(q, 1, rng.next() as u128)).collect();
        mles.push(DenseMultilinearExtension::from_evaluations(q, 1, nvars, evals));
    }
    // three products of up to three factors each
    let mut products: Vec<(RqNtt, Vec<(usize, u64)>)> = Vec::new();
    for _ in 0..3 {
        let coeff = RqNtt::from_u128(q, 1, rng.next() as u128);
        let n_factors = 1 + (rng.next() as usize % 3);
        let factors: Vec<(usize, u64)> = (0..n_factors)
            .map(|_| (rng.next() as usize % n_mles, 0u64))
            .collect();
        products.push((coeff, factors));
    }
    // the true sum over the hypercube
    let mut total: u128 = 0;
    for x in 0..len {
        for (coeff, factors) in &products {
            let mut term = coeff.c[0] as u128;
            for (idx, _) in factors {
                term = term * mles[*idx].evals[x].c[0] as u128 % q as u128;
            }
            total = (total + term) % q as u128;
        }
    }
    let sum = RqNtt::from_u128(q, 1, total);
    let degree = 3usize;
    (
        VirtualPolynomial { q, edim: 1, num_vars: nvars, degree, products, mles },
        sum,
    )
}

fn inv_table(q: u64, n: usize) -> Vec<u64> {
    let mut inv = vec![0u64; n];
    for k in 1..n {
        inv[k] = powmod(q, k as u64, q - 2);
    }
    inv
}

fn run_sumcheck_round_trip(q: u64, seed: u64) {
    let mut rng = Lcg(seed);
    let nvars = 5usize;
    for trial in 0..20 {
        let (g, sum) = rand_poly(q, nvars, 3, &mut rng);
        let mut tp = FsTranscript::new(q, 1, 8, 42);
        let (proof, _state) = MLSumcheck::prove_as_subprotocol(&mut tp, &g);
        let mut tv = FsTranscript::new(q, 1, 8, 42);
        let inv = inv_table(q, g.degree + 1);
        let res = MLSumcheck::verify_as_subprotocol(&mut tv, nvars, g.degree, &sum, &proof, &inv);
        assert!(res.is_ok(), "trial {trial} rejected a valid proof");
        let sub = res.ok().unwrap();
        assert_eq!(sub.point.len(), nvars);
    }
}

fn run_failing_sumcheck(q: u64, seed: u64) {
    let mut rng = Lcg(seed);
    let nvars = 5usize;
    for trial in 0..20 {
        let (g, sum) = rand_poly(q, nvars, 3, &mut rng);
        let mut tp = FsTranscript::new(q, 1, 8, 42);
        let (proof, _state) = MLSumcheck::prove_as_subprotocol(&mut tp, &g);
        let mut tv = FsTranscript::new(q, 1, 8, 42);
        let inv = inv_table(q, g.degree + 1);
        let not_sum = RqNtt::from_u128(q, 1, (sum.c[0] as u128 + 1) % q as u128);
        let res = MLSumcheck::verify_as_subprotocol(&mut tv, nvars, g.degree, &not_sum, &proof, &inv);
        match res {
            Err(SumCheckError::SumCheckFailed(_, _)) => {},
            _ => panic!("trial {trial} accepted a wrong claimed sum"),
        }
    }
}

fn run_serialization(q: u64, seed: u64) {
    let mut rng = Lcg(seed);
    let (g, _sum) = rand_poly(q, 5, 3, &mut rng);
    let mut tp = FsTranscript::new(q, 1, 8, 42);
    let (proof, _state) = MLSumcheck::prove_as_subprotocol(&mut tp, &g);
    let bytes = serialize_proof(&proof);
    let back = deserialize_proof(&bytes).expect("canonical stream parses");
    assert_eq!(back.0.len(), proof.0.len());
    for (m1, m2) in proof.0.iter().zip(back.0.iter()) {
        assert_eq!(m1.evaluations.len(), m2.evaluations.len());
        for (a, b) in m1.evaluations.iter().zip(m2.evaluations.iter()) {
            assert!(a.equals(b));
        }
    }
}

#[test]
fn test_sumcheck() {
    run_sumcheck_round_trip(Q_STARK, 1);
}

#[test]
fn sumcheck_test_sumcheck() {
    run_sumcheck_round_trip(Q_FROG, 2);
}

#[test]
fn goldilocks_test_sumcheck() {
    run_sumcheck_round_trip(Q_GOLDILOCKS, 3);
}

#[test]
fn babybear_test_sumcheck() {
    run_sumcheck_round_trip(Q_BABYBEAR, 4);
}

#[test]
fn test_failing_sumcheck() {
    run_failing_sumcheck(Q_STARK, 5);
}

#[test]
fn sumcheck_test_failing_sumcheck() {
    run_failing_sumcheck(Q_FROG, 6);
}

#[test]
fn goldilocks_test_failing_sumcheck() {
    run_failing_sumcheck(Q_GOLDILOCKS, 7);
}

#[test]
fn babybear_test_failing_sumcheck() {
    run_failing_sumcheck(Q_BABYBEAR, 8);
}

#[test]
fn test_sumcheck_proof_serialization() {
    run_serialization(Q_STARK, 9);
}

#[test]
fn sumcheck_test_sumcheck_proof_serialization() {
    run_serialization(Q_FROG, 10);
}

#[test]
fn goldilocks_test_sumcheck_proof_serialization() {
    run_serialization(Q_GOLDILOCKS, 11);
}

#[test]
fn babybear_test_sumcheck_proof_serialization() {
    run_serialization(Q_BABYBEAR, 12);
}

#[test]
fn test_truncated_proof_rejected() {
    let q = Q_BABYBEAR;
    let mut rng = Lcg(13);
    let (g, _sum) = rand_poly(q, 5, 3, &mut rng);
    let mut tp = FsTranscript::new(q, 1, 8, 42);
    let (proof, _state) = MLSumcheck::prove_as_subprotocol(&mut tp, &g);
    let mut bytes = serialize_proof(&proof);
    bytes.truncate(bytes.len() - 1);
    assert!(deserialize_proof(&bytes).is_none());
}

#[test]
fn test_max_degree_exceeded() {
    // a proof with too few rounds is rejected with the degree error
    let q = Q_BABYBEAR;
    let mut rng = Lcg(14);
    let (g, sum) = rand_poly(q, 5, 3, &mut rng);
    let mut tp = FsTranscript::new(q, 1, 8, 42);
    let (mut proof, _state) = MLSumcheck::prove_as_subprotocol(&mut tp, &g);
    proof.0.pop();
    let mut tv = FsTranscript::new(q, 1, 8, 42);
    let inv = inv_table(q, g.degree + 1);
    match MLSumcheck::verify_as_subprotocol(&mut tv, 5, g.degree, &sum, &proof, &inv) {
        Err(SumCheckError::MaxDegreeExceeded) => {},
        _ => panic!("expected a shape rejection"),
    }
}

#[test]
fn test_params_validation() {
    // a bad inverse table is refused
    let ident = vec![vec![1u64]];
    let bad_inv = vec![0u64, 2u64];
    assert!(RingParams::new(97, 1, 1, ident.clone(), ident.clone(), bad_inv).is_none());
    let good_inv = vec![0u64, 1u64];
    assert!(RingParams::new(97, 1, 1, ident.clone(), ident, good_inv).is_some());
    let _ = identity_params(97, 1, 2);
}
