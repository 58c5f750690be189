//! End-to-end tests of the folding protocol and the transcript layer.

use latticefold::ring::{RingParams, RqNtt, RqCoeff};
use latticefold::arith::{CCS, Witness, LCCCS};
use latticefold::commitment::{AjtaiCommitmentScheme, Commitment};
use latticefold::mle::evaluate_mles;
use latticefold::mle::DenseMultilinearExtension;
use latticefold::folding::{
    DecompositionParams, LFFoldingProver, LFFoldingVerifier, FoldingError,
    squeeze_alpha_beta_zeta_mu, sanity_check,
};
use latticefold::sumcheck::SumCheckError;
use latticefold::transcript::{Transcript, TranscriptWithSmallChallenges, FsTranscript};
use latticefold::rings::challenge_coefficients_from_bytes;

const Q_BABYBEAR: u64 = 2013265921;
const Q_STARK: u64 = 3221225473;
const Q_GOLDILOCKS: u64 = 18446744069414584321;
const Q_FROG: u64 = 2281701377;

fn powmod(q: u64, a: u64, mut e: u64) -> u64 {
    let mut r: u128 = 1;
    let mut b: u128 = a as u128 % q as u128;
    while e > 0 {
        if e & 1 == 1 {
            r = r * b % q as u128;
        }
        b = b * b % q as u128;
        e >>= 1;
    }
    r as u64
}

fn identity_params(q: u64, dim: usize, inv_len: usize) -> RingParams {
    let mut ident = Vec::new();
    for i in 0..dim {
        let mut row = vec![0u64; dim];
        row[i] = 1;
        ident.push(row);
    }
    let mut inv = vec![0u64; inv_len];
    for k in 1..inv_len {
        inv[k] = powmod(q, k as u64, q - 2);
    }
    RingParams::new(q, dim, dim, ident.clone(), ident, inv).expect("valid parameter table")
}

struct Lcg(u64);
impl Lcg {
    fn next(&mut self) -> u64 {
        self.0 = self.0.wrapping_mul(6364136223846793005).wrapping_add(1442695040888963407);
        self.0 >> 16
    }
}

fn clone_elem_vec(v: &Vec<RqNtt>) -> Vec<RqNtt> {
    v.iter().map(|e| e.clone_elem()).collect()
}

fn clone_inst(inst: &LCCCS) -> LCCCS {
    LCCCS {
        r: clone_elem_vec(&inst.r),
        v: clone_elem_vec(&inst.v),
        cm: Commitment { cm: clone_elem_vec(&inst.cm.cm) },
        u: clone_elem_vec(&inst.u),
        x_w: clone_elem_vec(&inst.x_w),
        h: inst.h.clone_elem(),
    }
}

struct Setup {
    params: RingParams,
    dp: DecompositionParams,
    ccs: CCS,
    cm_i_s: Vec<LCCCS>,
    w_s: Vec<Witness>,
    mz_mles: Vec<Vec<DenseMultilinearExtension>>,
}

/// Build two consistent linearized instances over a dimension-2 ring:
/// the `v` and `u` vectors really are the evaluations of the witness and
/// constraint extensions at each instance's point.
fn build_setup(q: u64, seed: u64) -> Setup {
    let dim = 2usize;
    let params = identity_params(q, dim, 6);
    let dp = DecompositionParams { k: 1, b: 4, l: 1, b_small: 2 };
    let ccs = CCS { m: 4, n: 6, l: 1, s: 2, t: 2 };
    let mut rng = Lcg(seed);

    let c_rows = 2usize;
    let w_cols = 4usize;
    let mut matrix = Vec::new();
    for _ in 0..c_rows {
        let mut row = Vec::new();
        for _ in 0..w_cols {
            row.push(RqNtt { q, c: (0..dim).map(|_| rng.next() % q).collect() });
        }
        matrix.push(row);
    }
    let scheme = AjtaiCommitmentScheme::try_from(q, dim, c_rows, w_cols, matrix).unwrap();

    let mut cm_i_s = Vec::new();
    let mut w_s = Vec::new();
    let mut mz_mles = Vec::new();
    for _ in 0..2 {
        // small witness: coefficients in {0, 1}, so the norm term vanishes
        let f: Vec<RqNtt> = (0..w_cols)
            .map(|_| RqNtt { q, c: (0..dim).map(|_| rng.next() % 2).collect() })
            .collect();
        let w = Witness::from_f(&params, ccs.s, clone_elem_vec(&f));
        let mz: Vec<DenseMultilinearExtension> = (0..ccs.t)
            .map(|_| {
                let evals: Vec<RqNtt> = (0..ccs.m)
                    .map(|_| RqNtt { q, c: (0..dim).map(|_| rng.next() % q).collect() })
                    .collect();
                DenseMultilinearExtension::from_evaluations(q, dim, ccs.s, evals)
            })
            .collect();
        let r: Vec<RqNtt> = (0..ccs.s)
            .map(|_| RqNtt::from_u128(q, dim, rng.next() as u128))
            .collect();
        let fh = w.f_hat.as_ref().expect("fresh witness");
        let v = evaluate_mles(fh, &r);
        let u = evaluate_mles(&mz, &r);
        let cm = scheme.commit_ntt(&f).unwrap();
        let x_w = vec![RqNtt { q, c: (0..dim).map(|_| rng.next() % q).collect() }];
        let h = RqNtt { q, c: (0..dim).map(|_| rng.next() % q).collect() };
        cm_i_s.push(LCCCS { r, v, cm, u, x_w, h });
        w_s.push(w);
        mz_mles.push(mz);
    }
    Setup { params, dp, ccs, cm_i_s, w_s, mz_mles }
}

fn run_folding_roundtrip(q: u64, seed: u64) {
    let s = build_setup(q, seed);
    let mut tp = FsTranscript::new(q, s.params.e, s.params.d, 11);
    let (lcccs, _w0, proof) = LFFoldingProver::prove(
        &s.params, &s.dp, &s.ccs, &s.cm_i_s, s.w_s, &mut tp, &s.mz_mles)
        .expect("honest folding proves");
    let mut tv = FsTranscript::new(q, s.params.e, s.params.d, 11);
    let lcccs2 = LFFoldingVerifier::verify(&s.params, &s.dp, &s.ccs, &s.cm_i_s, &proof, &mut tv)
        .expect("honest folding verifies");
    assert!(lcccs2.equals(&lcccs), "prover and verifier fold to different instances");
}

#[test]
fn test_folding_roundtrip_babybear() {
    run_folding_roundtrip(Q_BABYBEAR, 21);
}

#[test]
fn test_folding_roundtrip_stark() {
    run_folding_roundtrip(Q_STARK, 22);
}

#[test]
fn test_folding_roundtrip_goldilocks() {
    run_folding_roundtrip(Q_GOLDILOCKS, 23);
}

#[test]
fn test_folding_roundtrip_frog() {
    run_folding_roundtrip(Q_FROG, 24);
}

#[test]
fn test_folding_tamper_theta() {
    // flipping one theta coordinate makes verification fail
    let q = Q_BABYBEAR;
    let s = build_setup(q, 31);
    let mut tp = FsTranscript::new(q, s.params.e, s.params.d, 11);
    let (_lcccs, _w0, mut proof) = LFFoldingProver::prove(
        &s.params, &s.dp, &s.ccs, &s.cm_i_s, s.w_s, &mut tp, &s.mz_mles).unwrap();
    let old = proof.theta_s[0][0].c[0];
    proof.theta_s[0][0].c[0] = (old + 1) % q;
    let mut tv = FsTranscript::new(q, s.params.e, s.params.d, 11);
    match LFFoldingVerifier::verify(&s.params, &s.dp, &s.ccs, &s.cm_i_s, &proof, &mut tv) {
        Err(FoldingError::SumCheckError(SumCheckError::SumCheckFailed(_, _))) => {},
        _ => panic!("expected the evaluation check to fail"),
    }
}

#[test]
fn test_folding_tamper_u() {
    // flipping a coordinate of u changes the claim and the sumcheck rejects
    let q = Q_BABYBEAR;
    let s = build_setup(q, 32);
    let mut tp = FsTranscript::new(q, s.params.e, s.params.d, 11);
    let (_lcccs, _w0, proof) = LFFoldingProver::prove(
        &s.params, &s.dp, &s.ccs, &s.cm_i_s, s.w_s, &mut tp, &s.mz_mles).unwrap();
    let mut bad: Vec<LCCCS> = s.cm_i_s.iter().map(clone_inst).collect();
    let old = bad[1].u[0].c[0];
    bad[1].u[0].c[0] = (old + 1) % q;
    let mut tv = FsTranscript::new(q, s.params.e, s.params.d, 11);
    match LFFoldingVerifier::verify(&s.params, &s.dp, &s.ccs, &bad, &proof, &mut tv) {
        Err(FoldingError::SumCheckError(SumCheckError::SumCheckFailed(_, _))) => {},
        _ => panic!("expected the sumcheck to reject"),
    }
}

#[test]
fn test_folding_tamper_cm() {
    // flipping a commitment coordinate changes the folded instance
    let q = Q_BABYBEAR;
    let s = build_setup(q, 33);
    let mut tp = FsTranscript::new(q, s.params.e, s.params.d, 11);
    let (lcccs, _w0, proof) = LFFoldingProver::prove(
        &s.params, &s.dp, &s.ccs, &s.cm_i_s, s.w_s, &mut tp, &s.mz_mles).unwrap();
    let mut bad: Vec<LCCCS> = s.cm_i_s.iter().map(clone_inst).collect();
    let old = bad[0].cm.cm[0].c[0];
    bad[0].cm.cm[0].c[0] = (old + 1) % q;
    let mut tv = FsTranscript::new(q, s.params.e, s.params.d, 11);
    let folded = LFFoldingVerifier::verify(&s.params, &s.dp, &s.ccs, &bad, &proof, &mut tv)
        .expect("the commitment is not separately checked here");
    assert!(!folded.equals(&lcccs), "tampered commitment must change the fold");
}

#[test]
fn test_folding_tamper_x_w() {
    // flipping a public-input coordinate changes the folded instance
    let q = Q_BABYBEAR;
    let s = build_setup(q, 34);
    let mut tp = FsTranscript::new(q, s.params.e, s.params.d, 11);
    let (lcccs, _w0, proof) = LFFoldingProver::prove(
        &s.params, &s.dp, &s.ccs, &s.cm_i_s, s.w_s, &mut tp, &s.mz_mles).unwrap();
    let mut bad: Vec<LCCCS> = s.cm_i_s.iter().map(clone_inst).collect();
    let old = bad[0].x_w[0].c[0];
    bad[0].x_w[0].c[0] = (old + 1) % q;
    let mut tv = FsTranscript::new(q, s.params.e, s.params.d, 11);
    let folded = LFFoldingVerifier::verify(&s.params, &s.dp, &s.ccs, &bad, &proof, &mut tv)
        .expect("the public input is not separately checked here");
    assert!(!folded.equals(&lcccs), "tampered public input must change the fold");
}

#[test]
fn test_folding_wrong_instance_count() {
    let q = Q_BABYBEAR;
    let s = build_setup(q, 35);
    let one = vec![clone_inst(&s.cm_i_s[0])];
    let mut tp = FsTranscript::new(q, s.params.e, s.params.d, 11);
    match LFFoldingProver::prove(&s.params, &s.dp, &s.ccs, &one, s.w_s, &mut tp, &s.mz_mles) {
        Err(FoldingError::IncorrectLength) => {},
        _ => panic!("expected an instance count error"),
    }
}

#[test]
fn test_sanity_check_rejects_bad_shape() {
    let dp = DecompositionParams { k: 1, b: 4, l: 1, b_small: 2 };
    let bad = CCS { m: 3, n: 6, l: 1, s: 2, t: 2 };
    match sanity_check(&bad, &dp) {
        Err(FoldingError::ConstraintSystem(_)) => {},
        _ => panic!("expected a size bound error"),
    }
    let good = CCS { m: 4, n: 6, l: 1, s: 2, t: 2 };
    assert!(sanity_check(&good, &dp).is_ok());
}

#[test]
fn test_challenge_determinism() {
    // two transcripts absorbing the same 16-element slice produce
    // identical challenge tuples, element by element
    let q = Q_BABYBEAR;
    let dp = DecompositionParams { k: 2, b: 4, l: 1, b_small: 2 };
    let slice: Vec<RqNtt> = (0..16).map(|i| RqNtt::from_u128(q, 2, (i * i + 5) as u128)).collect();
    let mut t1 = FsTranscript::new(q, 2, 2, 99);
    let mut t2 = FsTranscript::new(q, 2, 2, 99);
    t1.absorb_slice(&slice);
    t2.absorb_slice(&slice);
    let (a1, b1, z1, m1) = squeeze_alpha_beta_zeta_mu(&mut t1, &dp, 3);
    let (a2, b2, z2, m2) = squeeze_alpha_beta_zeta_mu(&mut t2, &dp, 3);
    assert_eq!(a1, a2);
    assert_eq!(b1, b2);
    assert_eq!(z1, z2);
    assert_eq!(m1, m2);
    assert_eq!(a1.len(), 4);
    assert_eq!(b1.len(), 3);
    assert_eq!(z1.len(), 4);
    assert_eq!(m1.len(), 2);
}

#[test]
fn test_transcript_determinism() {
    // identical seeds and absorb sequences give identical challenges;
    // short challenges are low-norm (0/1 coefficients)
    let q = Q_STARK;
    let mut t1 = FsTranscript::new(q, 1, 120, 5);
    let mut t2 = FsTranscript::new(q, 1, 120, 5);
    for i in 0..7u64 {
        let e = RqNtt::from_u128(q, 1, (i * 31) as u128);
        t1.absorb(&e);
        let e2 = RqNtt::from_u128(q, 1, (i * 31) as u128);
        t2.absorb(&e2);
    }
    let c1 = t1.get_challenges(9);
    let c2 = t2.get_challenges(9);
    assert_eq!(c1, c2);
    let s1 = t1.get_small_challenge();
    let s2 = t2.get_small_challenge();
    assert!(s1.equals(&s2));
    assert_eq!(s1.c.len(), 120);
    assert!(s1.c.iter().all(|&b| b == 0 || b == 1));
}

#[test]
fn test_challenge_bit_order() {
    // byte k bit 7 lands at coefficient position 8k
    let q = Q_BABYBEAR;
    let bytes = vec![0b1000_0000u64, 0b0000_0001u64];
    let c: RqCoeff = challenge_coefficients_from_bytes(q, &bytes, 16);
    assert_eq!(c.c[0], 1);
    for j in 1..8 {
        assert_eq!(c.c[j], 0);
    }
    for j in 8..15 {
        assert_eq!(c.c[j], 0);
    }
    assert_eq!(c.c[15], 1);
}
