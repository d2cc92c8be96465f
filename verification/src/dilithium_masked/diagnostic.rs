//! What the inspection of keys and signatures computes: the decoded parts, the
//! lattice relation t = A*s1 + s2, and counts of nonzero coefficients.

use vstd::prelude::*;
use crate::constants::{K, L, N, Q, PUBLICKEYBYTES, SECRETKEYBYTES, SIGNBYTES};
use crate::polynomial::{q, Poly};
use crate::hints::{hint_unpack, hint_encoding_valid};
use crate::ntt::{ntt_input_ok, invntt_input_ok, all_reduced};
use crate::mldsa_spec::{pv, vadd, commitment, expand_a_spec, pk_t1, sig_z, sig_hint_bytes, hint_decode, sk_rho, sk_key,
    sk_tr, sk_s1, sk_s2, sk_t0, vec_reduced};
use crate::polynomial::add_fits;
use crate::dilithium_masked::{take32, take64, take_bytes, unpack_t1, unpack_s1, unpack_s2, unpack_t0, unpack_z, expand_a,
    matrix_mul, vecl_ntt, veck_invntt, veck_reduce, veck_add, lemma_small_ntt_ok, lemma_reduced_invntt_ok};

verus! {

/// rho and t1 of an encoded public key.
pub fn decode_public_key(pk: &[u8; PUBLICKEYBYTES]) -> (r: ([u8; 32], [Poly; K]))
    ensures
        r.0@ == pk@.subrange(0, 32),
        pv(r.1@) == pk_t1(pk@),
        forall|i: int, c: int| 0 <= i < 6 && 0 <= c < 256 ==> 0 <= #[trigger] r.1@[i]@[c] <= 1023,
{
    (take32(pk, 0), unpack_t1(pk, 32))
}

/// rho, K, tr, s1, s2 and t0 of an encoded secret key.
pub fn decode_secret_key(sk: &[u8; SECRETKEYBYTES]) -> (r: ([u8; 32], [u8; 32], [u8; 64], [Poly; L], [Poly; K], [Poly; K]))
    ensures
        r.0@ == sk_rho(sk@),
        r.1@ == sk_key(sk@),
        r.2@ == sk_tr(sk@),
        pv(r.3@) == sk_s1(sk@),
        pv(r.4@) == sk_s2(sk@),
        pv(r.5@) == sk_t0(sk@),
        forall|i: int, c: int| 0 <= i < 6 && 0 <= c < 256 ==> -4095 <= #[trigger] r.5@[i]@[c] <= 4096,
{
    (take32(sk, 0), take32(sk, 32), take64(sk, 64), unpack_s1(sk, 128), unpack_s2(sk, 768), unpack_t0(sk, 1536))
}

/// t = A*s1 + s2 recomputed from an encoded secret key, reduced modulo q.
pub fn lattice_t(sk: &[u8; SECRETKEYBYTES]) -> (t: [Poly; K])
    ensures
        pv(t@) == vadd(commitment(expand_a_spec(sk_rho(sk@)), sk_s1(sk@)), sk_s2(sk@)),
{
    let rho = take32(sk, 0);
    let mut s1_hat = unpack_s1(sk, 128);
    let s2 = unpack_s2(sk, 768);
    proof {
        assert forall|i: int| 0 <= i < 5 implies #[trigger] ntt_input_ok(s1_hat@[i].coeffs@) by {
            lemma_small_ntt_ok(s1_hat@[i], 11);
        }
    }
    vecl_ntt(&mut s1_hat);
    let a_hat = expand_a(&rho);
    let mut t = matrix_mul(&a_hat, &s1_hat);
    proof {
        assert forall|i: int| 0 <= i < 6 implies #[trigger] invntt_input_ok(t@[i].coeffs@) by {
            lemma_reduced_invntt_ok(t@[i]);
        }
    }
    veck_invntt(&mut t);
    veck_reduce(&mut t);
    proof {
        assert forall|i: int| 0 <= i < 6 implies #[trigger] add_fits(t@[i]@, s2@[i]@) by {
            assert forall|c: int| 0 <= c < 256 implies i32::MIN <= #[trigger] t@[i]@[c] + s2@[i]@[c] <= i32::MAX by {
                assert(all_reduced(t@[i].coeffs@));
                assert(t@[i]@[c] == t@[i].coeffs@[c] as int);
            }
        }
    }
    veck_add(&t, &s2)
}

/// Whether t1 * 2^d + t0 equals `actual`, or differs from it by exactly q.
pub fn relation_holds(t1: i32, t0: i32, actual: i32) -> (ok: bool)
    requires
        0 <= t1 <= 1023,
        -4095 <= t0 <= 4096,
        -q() <= actual <= 2 * q(),
    ensures
        ok == ({
            let e = t1 * 8192 + t0;
            e == actual || e == actual + q() || e == actual - q()
        }),
{
    let shifted = t1 << 13u32;
    proof {
        assert(t1 << 13u32 == t1 * 8192) by (bit_vector)
            requires 0 <= t1 <= 1023;
    }
    let expected = shifted + t0;
    expected == actual || expected == actual + Q || expected == actual - Q
}

/// Whether t1 * 2^13 + t0 equals the recomputed a at one position, or differs
/// from it by exactly q, with t1, t0 and a in their ranges.
pub open spec fn relation_at(t1: int, t0: int, a: int) -> bool {
    &&& 0 <= t1 <= 1023
    &&& -4095 <= t0 <= 4096
    &&& -q() <= a <= 2 * q()
    &&& ({
        let e = t1 * 8192 + t0;
        e == a || e == a + q() || e == a - q()
    })
}

/// The positions (i, j) with i, j < 3, row by row among the first k of them,
/// at which the lattice relation does not hold.
pub open spec fn relation_mismatches(t1: Seq<Seq<int>>, t0: Seq<Seq<int>>, t: Seq<Seq<int>>, k: int)
    -> Seq<(usize, usize)>
    decreases k,
{
    if k <= 0 {
        Seq::empty()
    } else {
        let prev = relation_mismatches(t1, t0, t, k - 1);
        let i = (k - 1) / 3;
        let j = (k - 1) % 3;
        if relation_at(t1[i][j], t0[i][j], t[i][j]) { prev } else { prev.push((i as usize, j as usize)) }
    }
}

/// Checks t = A*s1 + s2 (mod q) against t1 of the public key and t0 of the
/// secret key at the positions (i, j) with i, j < 3, and returns those at
/// which it fails, row by row.
pub fn lattice_mismatches(pk: &[u8; PUBLICKEYBYTES], sk: &[u8; SECRETKEYBYTES]) -> (m: Vec<(usize, usize)>)
    ensures
        m@ == relation_mismatches(pk_t1(pk@), sk_t0(sk@),
            vadd(commitment(expand_a_spec(sk_rho(sk@)), sk_s1(sk@)), sk_s2(sk@)), 9),
{
    let t1 = unpack_t1(pk, 32);
    let t0 = unpack_t0(sk, 1536);
    let t = lattice_t(sk);
    let ghost g1 = pk_t1(pk@);
    let ghost g0 = sk_t0(sk@);
    let ghost gt = vadd(commitment(expand_a_spec(sk_rho(sk@)), sk_s1(sk@)), sk_s2(sk@));
    let mut m: Vec<(usize, usize)> = Vec::new();
    let mut k: usize = 0;
    while k < 9
        invariant
            0 <= k <= 9,
            pv(t1@) == g1,
            pv(t0@) == g0,
            pv(t@) == gt,
            m@ == relation_mismatches(g1, g0, gt, k as int),
        decreases 9 - k,
    {
        let i = k / 3;
        let j = k % 3;
        let hi = t1[i].coeffs[j];
        let lo = t0[i].coeffs[j];
        let a = t[i].coeffs[j];
        proof {
            assert(g1[i as int][j as int] == hi as int);
            assert(g0[i as int][j as int] == lo as int);
            assert(gt[i as int][j as int] == a as int);
        }
        let ok = 0 <= hi && hi <= 1023 && -4095 <= lo && lo <= 4096 && -Q <= a && a <= 2 * Q
            && relation_holds(hi, lo, a);
        if !ok {
            m.push((i, j));
        }
        k += 1;
    }
    m
}

/// c~, z and, when the hint bytes are well formed, h of an encoded signature.
pub fn decode_signature(sig: &[u8; SIGNBYTES]) -> (r: ([u8; 48], [Poly; L], Option<[Poly; K]>))
    ensures
        r.0@ == sig@.subrange(0, 48),
        pv(r.1@) == sig_z(sig@),
        r.2 is Some <==> hint_encoding_valid(sig_hint_bytes(sig@)),
        r.2 matches Some(h) ==> pv(h@) == hint_decode(sig_hint_bytes(sig@)),
{
    let c_tilde: [u8; 48] = take_bytes(sig, 0);
    let z = unpack_z(sig, 48);
    let hbuf: [u8; 61] = take_bytes(sig, 3248);
    let h = hint_unpack(&hbuf);
    proof {
        if let Some(hh) = h {
            assert forall|i: int| 0 <= i < 6 implies #[trigger] pv(hh@)[i] == hint_decode(hbuf@)[i] by {
                assert(pv(hh@)[i] =~= hint_decode(hbuf@)[i]);
            }
            assert(pv(hh@) =~= hint_decode(hbuf@));
        }
    }
    (c_tilde, z, h)
}

/// Number of nonzero coefficients among the polynomials of v.
pub open spec fn nonzero_count(v: Seq<Poly>) -> int
    decreases v.len(),
{
    if v.len() == 0 {
        0
    } else {
        nonzero_count(v.drop_last()) + nonzero_in(v.last().coeffs@, 256)
    }
}

/// Number of nonzero values among the first n of s.
pub open spec fn nonzero_in(s: Seq<i32>, n: int) -> int
    decreases n,
{
    if n <= 0 { 0 } else { nonzero_in(s, n - 1) + if s[n - 1] != 0 { 1int } else { 0int } }
}

proof fn lemma_nonzero_in_bound(s: Seq<i32>, n: int)
    requires
        n >= 0,
    ensures
        0 <= nonzero_in(s, n) <= n,
    decreases n,
{
    if n > 0 {
        lemma_nonzero_in_bound(s, n - 1);
    }
}

/// Counts the nonzero coefficients of the polynomials of v.
pub fn count_nonzero(v: &[Poly]) -> (r: usize)
    requires
        v@.len() <= 1024,
    ensures
        r == nonzero_count(v@),
{
    let mut total: usize = 0;
    let mut i: usize = 0;
    while i < v.len()
        invariant
            0 <= i <= v@.len() <= 1024,
            total == nonzero_count(v@.subrange(0, i as int)),
            total <= 256 * i,
        decreases v@.len() - i,
    {
        let mut j: usize = 0;
        let mut here: usize = 0;
        while j < N
            invariant
                0 <= j <= 256,
                0 <= i < v@.len(),
                here == nonzero_in(v@[i as int].coeffs@, j as int),
                here <= j,
            decreases 256 - j,
        {
            if v[i].coeffs[j] != 0 {
                here += 1;
            }
            j += 1;
        }
        proof {
            let pre = v@.subrange(0, i as int);
            let next = v@.subrange(0, i + 1);
            assert(next.drop_last() =~= pre);
            assert(next.last() == v@[i as int]);
        }
        total = total + here;
        i += 1;
    }
    assert(v@.subrange(0, v@.len() as int) =~= v@);
    total
}

} // verus!
