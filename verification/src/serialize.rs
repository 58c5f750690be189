//! Canonical proof encoding: length-prefixed, little-endian words, the
//! fields in declaration order, no versioning byte.
//!
//! Every 64-bit word is laid out as eight little-endian bytes.  The
//! stream is: the message count; then per message the evaluation count;
//! then per evaluation the modulus, the dimension, and the coordinates.
//! The encoding is given as a specification function; the serializer
//! emits exactly it, and the decoder accepts only canonical streams and
//! returns their preimage, so that serializing and then deserializing
//! reproduces the proof.

use vstd::prelude::*;
use vstd::arithmetic::power2::pow2;
use crate::ring::RqNtt;
use crate::sumcheck::{Proof, ProverMsg};

verus! {

/// Byte `j` (least significant first) of the little-endian layout of `x`.
pub open spec fn le_byte_s(x: u64, j: nat) -> u8 {
    (((x as int / pow2(8 * j) as int) % 256) as u8)
}

/// The eight little-endian bytes of a word.
pub open spec fn word_bytes_s(x: u64) -> Seq<u8> {
    Seq::new(8, |j: int| le_byte_s(x, j as nat))
}

/// The word encoded by the first `n` of eight little-endian bytes.
pub open spec fn word_of_bytes_s(bs: Seq<u8>, n: int) -> int
    decreases n,
{
    if n <= 0 {
        0
    } else {
        word_of_bytes_s(bs, n - 1) + bs[n - 1] * pow2((8 * (n - 1)) as nat) as int
    }
}

/// The bytes at positions `n..8`, recombined with byte `n` least
/// significant.
pub open spec fn word_tail_s(bs: Seq<u8>, n: int) -> int
    decreases 8 - n,
{
    if n >= 8 {
        0
    } else {
        bs[n] + 256 * word_tail_s(bs, n + 1)
    }
}

/// A partial word is bounded by the capacity of its bytes.
proof fn lemma_word_bound(bs: Seq<u8>, n: int)
    requires
        0 <= n <= 8,
    ensures
        0 <= word_of_bytes_s(bs, n) < pow2((8 * n) as nat),
    decreases n,
{
    vstd::arithmetic::power2::lemma2_to64();
    if n > 0 {
        lemma_word_bound(bs, n - 1);
        let p = pow2((8 * (n - 1)) as nat) as int;
        vstd::arithmetic::power2::lemma_pow2_adds((8 * (n - 1)) as nat, 8);
        vstd::arithmetic::power2::lemma_pow2_pos((8 * (n - 1)) as nat);
        assert(bs[n - 1] * p <= 255 * p) by (nonlinear_arith)
            requires bs[n - 1] <= 255 && p >= 1,
        ;
        assert(p + 255 * p == 256 * p) by (nonlinear_arith);
    }
}

/// Splitting a full word at position `n`: low bytes plus shifted tail.
proof fn lemma_word_split(bs: Seq<u8>, n: int)
    requires
        0 <= n <= 8,
    ensures
        word_of_bytes_s(bs, 8) == word_of_bytes_s(bs, n) + pow2((8 * n) as nat) * word_tail_s(bs, n),
    decreases 8 - n,
{
    if n == 8 {
        vstd::arithmetic::power2::lemma_pow2_pos(64);
        assert(pow2(64) * 0 == 0) by (nonlinear_arith);
    } else {
        lemma_word_split(bs, n + 1);
        let p = pow2((8 * n) as nat) as int;
        let p1 = pow2((8 * (n + 1)) as nat) as int;
        vstd::arithmetic::power2::lemma_pow2_adds((8 * n) as nat, 8);
        vstd::arithmetic::power2::lemma2_to64();
        assert(p1 == p * 256);
        assert(word_of_bytes_s(bs, n + 1) == word_of_bytes_s(bs, n) + bs[n] * p);
        assert(word_of_bytes_s(bs, n) + bs[n] * p + (p * 256) * word_tail_s(bs, n + 1)
            == word_of_bytes_s(bs, n) + p * (bs[n] + 256 * word_tail_s(bs, n + 1))) by (nonlinear_arith);
    }
}

/// The little-endian layout inverts recombination: the bytes of the
/// word a byte window encodes are the window itself.
proof fn lemma_bytes_of_word_of_bytes(bs: Seq<u8>)
    requires
        bs.len() == 8,
        word_of_bytes_s(bs, 8) <= u64::MAX,
    ensures
        word_bytes_s(((word_of_bytes_s(bs, 8)) as u64)) == bs,
{
    let w = word_of_bytes_s(bs, 8);
    lemma_word_bound(bs, 8);
    assert forall|j: int| 0 <= j < 8 implies word_bytes_s((w as u64))[j] == bs[j] by {
        lemma_word_bound(bs, 8);
        assert((w as u64) as int == w);
        let p = pow2((8 * j) as nat) as int;
        vstd::arithmetic::power2::lemma_pow2_pos((8 * j) as nat);
        lemma_word_split(bs, j);
        lemma_word_bound(bs, j);
        // w == p * tail + low, 0 <= low < p, so w / p == tail
        vstd::arithmetic::div_mod::lemma_fundamental_div_mod_converse(
            w, p, word_tail_s(bs, j), word_of_bytes_s(bs, j));
        // tail == bs[j] + 256 * tail', so (w / p) % 256 == bs[j]
        vstd::arithmetic::div_mod::lemma_mod_multiples_vanish(
            word_tail_s(bs, j + 1), bs[j] as int, 256);
        vstd::arithmetic::div_mod::lemma_small_mod(bs[j] as nat, 256);
    }
    assert(word_bytes_s((w as u64)) =~= bs);
}

/// The canonical encoding of the coordinates of one ring element.
pub open spec fn enc_coords_s(c: Seq<u64>, n: int) -> Seq<u8>
    decreases n,
{
    if n <= 0 {
        Seq::empty()
    } else {
        enc_coords_s(c, n - 1) + word_bytes_s(c[n - 1])
    }
}

/// The canonical encoding of one evaluation: modulus, dimension,
/// coordinates.
pub open spec fn enc_elem_s(ev: (u64, Seq<u64>)) -> Seq<u8> {
    word_bytes_s(ev.0) + word_bytes_s((ev.1.len() as u64)) + enc_coords_s(ev.1, ev.1.len() as int)
}

/// The canonical encoding of the first `n` evaluations of a message.
pub open spec fn enc_elems_s(m: Seq<(u64, Seq<u64>)>, n: int) -> Seq<u8>
    decreases n,
{
    if n <= 0 {
        Seq::empty()
    } else {
        enc_elems_s(m, n - 1) + enc_elem_s(m[n - 1])
    }
}

/// The canonical encoding of one message: evaluation count, evaluations.
pub open spec fn enc_msg_s(m: Seq<(u64, Seq<u64>)>) -> Seq<u8> {
    word_bytes_s((m.len() as u64)) + enc_elems_s(m, m.len() as int)
}

/// The canonical encoding of the first `n` messages.
pub open spec fn enc_msgs_s(v: Seq<Seq<(u64, Seq<u64>)>>, n: int) -> Seq<u8>
    decreases n,
{
    if n <= 0 {
        Seq::empty()
    } else {
        enc_msgs_s(v, n - 1) + enc_msg_s(v[n - 1])
    }
}

/// The canonical encoding of a whole proof: message count, messages.
pub open spec fn enc_proof_s(v: Seq<Seq<(u64, Seq<u64>)>>) -> Seq<u8> {
    word_bytes_s((v.len() as u64)) + enc_msgs_s(v, v.len() as int)
}


/// The encoding of the first `n` coordinates reads nothing past them.
proof fn lemma_enc_coords_prefix(c1: Seq<u64>, c2: Seq<u64>, n: int)
    requires
        forall|i: int| 0 <= i < n ==> c1[i] == c2[i],
    ensures
        enc_coords_s(c1, n) == enc_coords_s(c2, n),
    decreases n,
{
    if n > 0 {
        lemma_enc_coords_prefix(c1, c2, n - 1);
    }
}

/// The encoding of the first `n` evaluations reads nothing past them.
proof fn lemma_enc_elems_prefix(m1: Seq<(u64, Seq<u64>)>, m2: Seq<(u64, Seq<u64>)>, n: int)
    requires
        forall|i: int| 0 <= i < n ==> m1[i] == m2[i],
    ensures
        enc_elems_s(m1, n) == enc_elems_s(m2, n),
    decreases n,
{
    if n > 0 {
        lemma_enc_elems_prefix(m1, m2, n - 1);
    }
}

/// The encoding of the first `n` messages reads nothing past them.
proof fn lemma_enc_msgs_prefix(v1: Seq<Seq<(u64, Seq<u64>)>>, v2: Seq<Seq<(u64, Seq<u64>)>>, n: int)
    requires
        forall|i: int| 0 <= i < n ==> v1[i] == v2[i],
    ensures
        enc_msgs_s(v1, n) == enc_msgs_s(v2, n),
    decreases n,
{
    if n > 0 {
        lemma_enc_msgs_prefix(v1, v2, n - 1);
    }
}

/// The proof as moduli and coordinate sequences.
pub open spec fn proof_full_view(p: &Proof) -> Seq<Seq<(u64, Seq<u64>)>> {
    p.0@.map_values(|m: ProverMsg| m.evaluations@.map_values(|e: RqNtt| (e.q, e.c@)))
}

/// Append a word to a byte stream as eight little-endian bytes.
fn push_word(out: &mut Vec<u8>, x: u64)
    ensures
        final(out)@ == old(out)@ + word_bytes_s(x),
{
    let ghost base = out@;
    let mut cur: u64 = x;
    let mut j: usize = 0;
    proof {
        vstd::arithmetic::power2::lemma2_to64();
        assert(x as int / 1 == x) by (nonlinear_arith);
    }
    while j < 8
        invariant
            j <= 8,
            out@.len() == base.len() + j,
            out@.subrange(0, base.len() as int) == base,
            cur == x as int / pow2((8 * j) as nat) as int,
            forall|a: int| base.len() <= a < out@.len()
                ==> #[trigger] out@[a] == le_byte_s(x, (a - base.len()) as nat),
        decreases 8 - j,
    {
        proof {
            vstd::arithmetic::power2::lemma_pow2_pos((8 * j as nat) as nat);
        }
        out.push((cur % 256) as u8);
        proof {
            vstd::arithmetic::power2::lemma_pow2_adds((8 * j as nat) as nat, 8);
            vstd::arithmetic::power2::lemma2_to64();
            vstd::arithmetic::div_mod::lemma_div_denominator(
                x as int, pow2((8 * j as nat) as nat) as int, 256);
            assert(out@.subrange(0, base.len() as int) =~= base);
        }
        cur = cur / 256;
        j = j + 1;
    }
    proof {
        assert(out@ =~= base + word_bytes_s(x));
    }
}

/// Read the little-endian word at byte offset `off`.
fn read_word(bytes: &Vec<u8>, off: usize) -> (r: u64)
    requires
        off + 8 <= bytes@.len(),
    ensures
        r == word_of_bytes_s(bytes@.subrange(off as int, off + 8), 8),
{
    let ghost window = bytes@.subrange(off as int, off + 8);
    let n = bytes.len();
    let mut acc: u64 = 0;
    let mut mult: u128 = 1;
    let mut j: usize = 0;
    proof {
        vstd::arithmetic::power2::lemma2_to64();
        vstd::arithmetic::power2::lemma2_to64_rest();
    }
    while j < 8
        invariant
            n == bytes@.len(),
            off + 8 <= n,
            window == bytes@.subrange(off as int, off + 8),
            j <= 8,
            mult == pow2((8 * j) as nat),
            mult <= pow2(64),
            acc == word_of_bytes_s(window, j as int),
            acc < pow2((8 * j) as nat),
        decreases 8 - j,
    {
        let b = bytes[off + j];
        proof {
            assert(window[j as int] == bytes@[off + j]);
            vstd::arithmetic::power2::lemma_pow2_adds((8 * j as nat) as nat, 8);
            vstd::arithmetic::power2::lemma2_to64();
            vstd::arithmetic::power2::lemma2_to64_rest();
            vstd::arithmetic::power2::lemma_pow2_pos((8 * j as nat) as nat);
            assert(acc + b as int * mult < 256 * pow2((8 * j as nat) as nat)) by (nonlinear_arith)
                requires acc < pow2((8 * j as nat) as nat) && b < 256
                    && mult == pow2((8 * j as nat) as nat),
            ;
            assert(256 * pow2((8 * j as nat) as nat) == pow2((8 * (j + 1) as nat) as nat));
            assert(pow2((8 * (j + 1) as nat) as nat) <= pow2(64)) by {
                if 8 * (j + 1) < 64 {
                    vstd::arithmetic::power2::lemma_pow2_strictly_increases(
                        (8 * (j + 1) as nat) as nat, 64);
                }
            };
        }
        proof {
            assert(mult <= pow2(56)) by {
                if 8 * j < 56 {
                    vstd::arithmetic::power2::lemma_pow2_strictly_increases((8 * j as nat) as nat, 56);
                }
            };
        }
        acc = acc + (b as u64) * (mult as u64);
        mult = mult * 256;
        proof {
            vstd::arithmetic::power2::lemma_pow2_adds((8 * j as nat) as nat, 8);
        }
        j = j + 1;
    }
    acc
}

/// Serialize a sumcheck proof to its canonical byte stream.
pub fn serialize_proof(proof: &Proof) -> (r: Vec<u8>)
    requires
        proof.0@.len() <= u64::MAX,
        forall|i: int| 0 <= i < proof.0@.len()
            ==> (#[trigger] proof.0@[i]).evaluations@.len() <= u64::MAX,
        forall|i: int, j: int| 0 <= i < proof.0@.len() && 0 <= j < proof.0@[i].evaluations@.len()
            ==> (#[trigger] proof.0@[i].evaluations@[j]).c@.len() <= u64::MAX,
    ensures
        r@ == enc_proof_s(proof_full_view(proof)),
{
    let ghost pv = proof_full_view(proof);
    let mut out: Vec<u8> = Vec::new();
    push_word(&mut out, proof.0.len() as u64);
    proof {
        assert(out@ =~= word_bytes_s((pv.len() as u64)) + enc_msgs_s(pv, 0));
    }
    let mut i: usize = 0;
    while i < proof.0.len()
        invariant
            pv == proof_full_view(proof),
            pv.len() == proof.0@.len(),
            forall|a: int, j: int| 0 <= a < proof.0@.len() && 0 <= j < proof.0@[a].evaluations@.len()
                ==> (#[trigger] proof.0@[a].evaluations@[j]).c@.len() <= u64::MAX,
            forall|a: int| 0 <= a < proof.0@.len()
                ==> (#[trigger] proof.0@[a]).evaluations@.len() <= u64::MAX,
            i <= proof.0@.len(),
            out@ == word_bytes_s((pv.len() as u64)) + enc_msgs_s(pv, i as int),
        decreases proof.0@.len() - i,
    {
        let msg = &proof.0[i];
        let ghost mv = pv[i as int];
        proof {
            assert(mv == proof.0@[i as int].evaluations@.map_values(|e: RqNtt| (e.q, e.c@)));
        }
        push_word(&mut out, msg.evaluations.len() as u64);
        proof {
            assert(out@ =~= word_bytes_s((pv.len() as u64)) + enc_msgs_s(pv, i as int)
                + (word_bytes_s((mv.len() as u64)) + enc_elems_s(mv, 0)));
        }
        let mut j: usize = 0;
        while j < msg.evaluations.len()
            invariant
                pv == proof_full_view(proof),
                pv.len() == proof.0@.len(),
                msg == proof.0@[i as int],
                mv == pv[i as int],
                mv.len() == msg.evaluations@.len(),
                i < proof.0@.len(),
                forall|a: int, jj: int| 0 <= a < proof.0@.len() && 0 <= jj < proof.0@[a].evaluations@.len()
                    ==> (#[trigger] proof.0@[a].evaluations@[jj]).c@.len() <= u64::MAX,
                j <= msg.evaluations@.len(),
                out@ == word_bytes_s((pv.len() as u64)) + enc_msgs_s(pv, i as int)
                    + (word_bytes_s((mv.len() as u64)) + enc_elems_s(mv, j as int)),
            decreases msg.evaluations@.len() - j,
        {
            let e = &msg.evaluations[j];
            let ghost evv = mv[j as int];
            proof {
                assert(evv == (e.q, e.c@));
            }
            push_word(&mut out, e.q);
            push_word(&mut out, e.c.len() as u64);
            proof {
                assert(out@ =~= word_bytes_s((pv.len() as u64)) + enc_msgs_s(pv, i as int)
                    + (word_bytes_s((mv.len() as u64)) + enc_elems_s(mv, j as int))
                    + (word_bytes_s(evv.0) + word_bytes_s((evv.1.len() as u64)) + enc_coords_s(evv.1, 0)));
            }
            let mut d: usize = 0;
            while d < e.c.len()
                invariant
                    pv == proof_full_view(proof),
                    msg == proof.0@[i as int],
                    mv == pv[i as int],
                    i < proof.0@.len(),
                    j < mv.len(),
                    e == proof.0@[i as int].evaluations@[j as int],
                    evv == mv[j as int],
                    evv.1 == e.c@,
                    d <= e.c@.len(),
                    out@ == word_bytes_s((pv.len() as u64)) + enc_msgs_s(pv, i as int)
                        + (word_bytes_s((mv.len() as u64)) + enc_elems_s(mv, j as int))
                        + (word_bytes_s(evv.0) + word_bytes_s((evv.1.len() as u64))
                            + enc_coords_s(evv.1, d as int)),
                decreases e.c@.len() - d,
            {
                push_word(&mut out, e.c[d]);
                proof {
                    assert(out@ =~= word_bytes_s((pv.len() as u64)) + enc_msgs_s(pv, i as int)
                        + (word_bytes_s((mv.len() as u64)) + enc_elems_s(mv, j as int))
                        + (word_bytes_s(evv.0) + word_bytes_s((evv.1.len() as u64))
                            + enc_coords_s(evv.1, d + 1)));
                }
                d = d + 1;
            }
            proof {
                assert(out@ =~= word_bytes_s((pv.len() as u64)) + enc_msgs_s(pv, i as int)
                    + (word_bytes_s((mv.len() as u64)) + enc_elems_s(mv, j + 1)));
            }
            j = j + 1;
        }
        proof {
            assert(out@ =~= word_bytes_s((pv.len() as u64)) + enc_msgs_s(pv, i + 1));
        }
        i = i + 1;
    }
    proof {
        assert(out@ =~= enc_proof_s(pv));
    }
    out
}

/// Parse a canonical byte stream back into a proof.  Only canonical
/// streams are accepted: whatever parses re-encodes to exactly the input
/// bytes, so deserializing a serialized proof reproduces it.  A stream
/// whose leading count word is zero parses to the empty proof.
pub fn deserialize_proof(bytes: &Vec<u8>) -> (r: Option<Proof>)
    ensures
        r matches Some(p) ==> bytes@ == enc_proof_s(proof_full_view(&p)),
        bytes@.len() == 8 && word_of_bytes_s(bytes@.subrange(0, 8), 8) == 0
            ==> r is Some,
{
    let n = bytes.len();
    let mut off: usize = 0;
    if n < 8 {
        return None;
    }
    let n_msgs = read_word(bytes, off);
    off = off + 8;
    if n_msgs > usize::MAX as u64 {
        return None;
    }
    proof {
        lemma_word_bound(bytes@.subrange(0, 8), 8);
        lemma_bytes_of_word_of_bytes(bytes@.subrange(0, 8));
        assert(bytes@.subrange(0, 8) =~= word_bytes_s(n_msgs));
        assert(bytes@.subrange(0, 8) =~= word_bytes_s(n_msgs)
            + enc_msgs_s(Seq::<Seq<(u64, Seq<u64>)>>::empty(), 0));
    }
    let mut msgs: Vec<ProverMsg> = Vec::new();
    proof {
        assert(msgs@.map_values(|m: ProverMsg|
            m.evaluations@.map_values(|e: RqNtt| (e.q, e.c@)))
            =~= Seq::<Seq<(u64, Seq<u64>)>>::empty());
    }
    let mut i: u64 = 0;
    while i < n_msgs
        invariant
            n == bytes@.len(),
            off <= n,
            i <= n_msgs,
            i == msgs@.len(),
            bytes@.subrange(0, 8) == word_bytes_s(n_msgs),
            n_msgs == word_of_bytes_s(bytes@.subrange(0, 8), 8),
            bytes@.subrange(0, off as int) == word_bytes_s(n_msgs)
                + enc_msgs_s(msgs@.map_values(|m: ProverMsg|
                    m.evaluations@.map_values(|e: RqNtt| (e.q, e.c@))), msgs@.len() as int),
            forall|a: int, j: int| 0 <= a < msgs@.len() && 0 <= j < msgs@[a].evaluations@.len()
                ==> (#[trigger] msgs@[a].evaluations@[j]).c@.len() <= u64::MAX,
            forall|a: int| 0 <= a < msgs@.len()
                ==> (#[trigger] msgs@[a]).evaluations@.len() <= u64::MAX,
        decreases n_msgs - i,
    {
        let ghost pv_pre = msgs@.map_values(|m: ProverMsg|
            m.evaluations@.map_values(|e: RqNtt| (e.q, e.c@)));
        if n - off < 8 {
            return None;
        }
        let n_evals = read_word(bytes, off);
        proof {
            lemma_word_bound(bytes@.subrange(off as int, off + 8), 8);
            lemma_bytes_of_word_of_bytes(bytes@.subrange(off as int, off + 8));
            assert(bytes@.subrange(off as int, off + 8) =~= word_bytes_s(n_evals));
            assert(bytes@.subrange(0, off + 8)
                =~= bytes@.subrange(0, off as int) + bytes@.subrange(off as int, off + 8));
        }
        off = off + 8;
        if n_evals > usize::MAX as u64 {
            return None;
        }
        let mut evaluations: Vec<RqNtt> = Vec::new();
        let mut j: u64 = 0;
        while j < n_evals
            invariant
                n == bytes@.len(),
                off <= n,
                j <= n_evals,
                j == evaluations@.len(),
                bytes@.subrange(0, off as int) == word_bytes_s(n_msgs)
                    + enc_msgs_s(pv_pre, pv_pre.len() as int)
                    + (word_bytes_s(n_evals) + enc_elems_s(
                        evaluations@.map_values(|e: RqNtt| (e.q, e.c@)),
                        evaluations@.len() as int)),
                pv_pre.len() == msgs@.len(),
                forall|a: int| 0 <= a < evaluations@.len()
                    ==> (#[trigger] evaluations@[a]).c@.len() <= u64::MAX,
            decreases n_evals - j,
        {
            let ghost ev_pre = evaluations@.map_values(|e: RqNtt| (e.q, e.c@));
            if n - off < 8 {
                return None;
            }
            let q = read_word(bytes, off);
            proof {
                lemma_word_bound(bytes@.subrange(off as int, off + 8), 8);
                lemma_bytes_of_word_of_bytes(bytes@.subrange(off as int, off + 8));
                assert(bytes@.subrange(off as int, off + 8) =~= word_bytes_s(q));
                assert(bytes@.subrange(0, off + 8)
                    =~= bytes@.subrange(0, off as int) + bytes@.subrange(off as int, off + 8));
            }
            off = off + 8;
            if n - off < 8 {
                return None;
            }
            let dim = read_word(bytes, off);
            proof {
                lemma_word_bound(bytes@.subrange(off as int, off + 8), 8);
                lemma_bytes_of_word_of_bytes(bytes@.subrange(off as int, off + 8));
                assert(bytes@.subrange(off as int, off + 8) =~= word_bytes_s(dim));
                assert(bytes@.subrange(0, off + 8)
                    =~= bytes@.subrange(0, off as int) + bytes@.subrange(off as int, off + 8));
            }
            off = off + 8;
            if dim > usize::MAX as u64 {
                return None;
            }
            let mut c: Vec<u64> = Vec::new();
            let mut d: u64 = 0;
            while d < dim
                invariant
                    n == bytes@.len(),
                    off <= n,
                    d <= dim,
                    d == c@.len(),
                    bytes@.subrange(0, off as int) == word_bytes_s(n_msgs)
                        + enc_msgs_s(pv_pre, pv_pre.len() as int)
                        + (word_bytes_s(n_evals) + enc_elems_s(ev_pre, ev_pre.len() as int))
                        + (word_bytes_s(q) + word_bytes_s(dim) + enc_coords_s(c@, c@.len() as int)),
                    ev_pre.len() == evaluations@.len(),
                    pv_pre.len() == msgs@.len(),
                decreases dim - d,
            {
                if n - off < 8 {
                    return None;
                }
                let w = read_word(bytes, off);
                proof {
                    lemma_word_bound(bytes@.subrange(off as int, off + 8), 8);
                    lemma_bytes_of_word_of_bytes(bytes@.subrange(off as int, off + 8));
                    assert(bytes@.subrange(off as int, off + 8) =~= word_bytes_s(w));
                    assert(bytes@.subrange(0, off + 8)
                        =~= bytes@.subrange(0, off as int) + bytes@.subrange(off as int, off + 8));
                }
                off = off + 8;
                let ghost c_old = c@;
                c.push(w);
                proof {
                    lemma_enc_coords_prefix(c@, c_old, c_old.len() as int);
                    assert(enc_coords_s(c@, c@.len() as int)
                        == enc_coords_s(c_old, c_old.len() as int) + word_bytes_s(w));
                }
                d = d + 1;
            }
            evaluations.push(RqNtt { q, c });
            proof {
                let ev_now = evaluations@.map_values(|e: RqNtt| (e.q, e.c@));
                assert(ev_now =~= ev_pre.push((q, evaluations@.last().c@)));
                lemma_enc_elems_prefix(ev_now, ev_pre, ev_pre.len() as int);
                assert(ev_now[ev_pre.len() as int] == (q, evaluations@.last().c@));
                assert(enc_elems_s(ev_now, ev_now.len() as int)
                    == enc_elems_s(ev_pre, ev_pre.len() as int)
                        + enc_elem_s((q, evaluations@.last().c@)));
                assert(enc_elem_s((q, evaluations@.last().c@))
                    =~= word_bytes_s(q) + word_bytes_s(dim)
                        + enc_coords_s(evaluations@.last().c@, evaluations@.last().c@.len() as int));
            }
            j = j + 1;
        }
        msgs.push(ProverMsg { evaluations });
        proof {
            let pv_now = msgs@.map_values(|m: ProverMsg|
                m.evaluations@.map_values(|e: RqNtt| (e.q, e.c@)));
            let last_mv = msgs@.last().evaluations@.map_values(|e: RqNtt| (e.q, e.c@));
            assert(pv_now =~= pv_pre.push(last_mv));
            lemma_enc_msgs_prefix(pv_now, pv_pre, pv_pre.len() as int);
            assert(pv_now[pv_pre.len() as int] == last_mv);
            assert(enc_msgs_s(pv_now, pv_now.len() as int)
                == enc_msgs_s(pv_pre, pv_pre.len() as int) + enc_msg_s(last_mv));
            assert(enc_msg_s(last_mv)
                =~= word_bytes_s(n_evals) + enc_elems_s(last_mv, last_mv.len() as int));
        }
        i = i + 1;
    }
    if off != n {
        return None;
    }
    let p = Proof(msgs);
    proof {
        assert(bytes@.subrange(0, n as int) =~= bytes@);
        assert(proof_full_view(&p) == msgs@.map_values(|m: ProverMsg|
            m.evaluations@.map_values(|e: RqNtt| (e.q, e.c@))));
        assert(proof_full_view(&p).len() == n_msgs);
    }
    Some(p)
}

} // verus!
