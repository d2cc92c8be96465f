//! The mathematical model of ML-DSA (FIPS 204) that the contracts of key
//! generation, signing and verification are stated in: vectors of polynomials as
//! sequences of coefficient sequences, and byte strings as sequences of bytes.

use vstd::prelude::*;
use crate::constants::L;
use crate::polynomial::{q, Poly, shake256_output, shake128_output, pointwise_spec, add_spec, sub_spec, reduce_spec, norm_below,
    power2round_spec, decompose_spec, centered_spec, make_hint_spec, use_hint_spec, abs_spec,
    lemma_centered_small, lemma_centered_mod, lemma_decompose_mod, lemma_use_hint_recovers, lemma_high_bits_stable};
use crate::ntt::{ntt_spec, invntt_spec, all_reduced, horner, mulx, negacyclic, lemma_ntt_multiplies};
use crate::sampling::{lemma_rej_bounded_range, rej_ntt_spec, padded, accepted_triples, rej_bounded_spec, sample_in_ball_spec, nonzero_count,
    lemma_sample_in_ball_weight};
use crate::packing::{lemma_z_roundtrip, lemma_t1_roundtrip, lemma_t0_roundtrip, lemma_eta_roundtrip, eta_digits_fit, polyt1_pack_spec, polyt1_unpack_spec, polyt0_pack_spec, polyt0_unpack_spec,
    polyeta_pack_spec, polyeta_unpack_spec, polyz_pack_spec, polyz_unpack_spec, polyw1_pack_spec};
use crate::hints::{hint_encoding_valid, hint_listed, lemma_hint_roundtrip};

verus! {

// ---------------------------------------------------------------------------
// Vectors and matrices of polynomials
// ---------------------------------------------------------------------------

/// Every coefficient of every polynomial of v lies in [0, q).
pub open spec fn vec_reduced(v: Seq<Poly>) -> bool {
    forall|i: int| 0 <= i < v.len() ==> #[trigger] all_reduced(v[i].coeffs@)
}

/// The coefficient sequences of a vector of polynomials.
pub open spec fn pv(v: Seq<Poly>) -> Seq<Seq<int>> {
    Seq::new(v.len(), |i: int| v[i]@)
}

/// The coefficient sequences of a matrix of polynomials.
pub open spec fn mv(a: Seq<[Poly; L]>) -> Seq<Seq<Seq<int>>> {
    Seq::new(a.len(), |i: int| pv(a[i]@))
}

/// sum over j < n of row[j][c] * v[j][c].
pub open spec fn dot_upto(row: Seq<Seq<int>>, v: Seq<Seq<int>>, c: int, n: int) -> int
    decreases n,
{
    if n <= 0 { 0 } else { dot_upto(row, v, c, n - 1) + row[n - 1][c] * v[n - 1][c] }
}

/// A * v in the NTT domain: the matrix-vector product with coefficient-wise
/// products, reduced modulo q.
pub open spec fn matmul_spec(a: Seq<Seq<Seq<int>>>, v: Seq<Seq<int>>) -> Seq<Seq<int>> {
    Seq::new(6, |i: int| Seq::new(256, |c: int| dot_upto(a[i], v, c, 5) % q()))
}

pub open spec fn vntt(v: Seq<Seq<int>>) -> Seq<Seq<int>> {
    Seq::new(v.len(), |i: int| ntt_spec(v[i]))
}

pub open spec fn vinvntt(v: Seq<Seq<int>>) -> Seq<Seq<int>> {
    Seq::new(v.len(), |i: int| invntt_spec(v[i]))
}

pub open spec fn vreduce(v: Seq<Seq<int>>) -> Seq<Seq<int>> {
    Seq::new(v.len(), |i: int| reduce_spec(v[i]))
}

pub open spec fn vadd(a: Seq<Seq<int>>, b: Seq<Seq<int>>) -> Seq<Seq<int>> {
    Seq::new(a.len(), |i: int| add_spec(a[i], b[i]))
}

pub open spec fn vsub(a: Seq<Seq<int>>, b: Seq<Seq<int>>) -> Seq<Seq<int>> {
    Seq::new(a.len(), |i: int| sub_spec(a[i], b[i]))
}

/// Every polynomial of v multiplied by c in the NTT domain.
pub open spec fn cmul(c: Seq<int>, v: Seq<Seq<int>>) -> Seq<Seq<int>> {
    Seq::new(v.len(), |i: int| pointwise_spec(c, v[i]))
}

/// Infinity norm of every polynomial of v below `bound`.
pub open spec fn vnorm_below(v: Seq<Seq<int>>, bound: int) -> bool {
    forall|i: int| 0 <= i < v.len() ==> #[trigger] norm_below(v[i], bound)
}

/// High parts (t1) of Power2Round on every coefficient.
pub open spec fn vp2r_high(v: Seq<Seq<int>>) -> Seq<Seq<int>> {
    Seq::new(v.len(), |i: int| Seq::new(256, |c: int| power2round_spec(v[i][c]).0))
}

/// Low parts (t0) of Power2Round on every coefficient.
pub open spec fn vp2r_low(v: Seq<Seq<int>>) -> Seq<Seq<int>> {
    Seq::new(v.len(), |i: int| Seq::new(256, |c: int| power2round_spec(v[i][c]).1))
}

/// High parts of Decompose on every coefficient.
pub open spec fn vhigh(v: Seq<Seq<int>>) -> Seq<Seq<int>> {
    Seq::new(v.len(), |i: int| Seq::new(256, |c: int| decompose_spec(v[i][c]).0))
}

/// Low parts of Decompose on every coefficient.
pub open spec fn vlow(v: Seq<Seq<int>>) -> Seq<Seq<int>> {
    Seq::new(v.len(), |i: int| Seq::new(256, |c: int| decompose_spec(v[i][c]).1))
}

/// Centred representatives of every coefficient.
pub open spec fn vcentered(v: Seq<Seq<int>>) -> Seq<Seq<int>> {
    Seq::new(v.len(), |i: int| Seq::new(256, |c: int| centered_spec(v[i][c])))
}

// ---------------------------------------------------------------------------
// Expansion of seeds (Algorithms 32 to 34)
// ---------------------------------------------------------------------------

/// ExpandA: A[r][s] = RejNTTPoly(rho || s || r).
pub open spec fn expand_a_spec(rho: Seq<u8>) -> Seq<Seq<Seq<int>>> {
    Seq::new(6, |r: int| Seq::new(5, |s: int| rej_ntt_spec(rho, s as u8, r as u8)))
}

/// The 66-byte seed rho' || IntegerToBytes(n, 2) for n < 256.
pub open spec fn seed_with_nonce(rho_prime: Seq<u8>, n: int) -> Seq<u8> {
    rho_prime + seq![n as u8, 0u8]
}

/// ExpandS, first vector: s1[r] from nonce r.
pub open spec fn expand_s1_spec(rho_prime: Seq<u8>) -> Seq<Seq<int>> {
    Seq::new(5, |r: int| rej_bounded_spec(seed_with_nonce(rho_prime, r)))
}

/// ExpandS, second vector: s2[r] from nonce r + L.
pub open spec fn expand_s2_spec(rho_prime: Seq<u8>) -> Seq<Seq<int>> {
    Seq::new(6, |r: int| rej_bounded_spec(seed_with_nonce(rho_prime, r + 5)))
}

/// One polynomial of ExpandMask: BitUnpack of SHAKE256(rho'' || n as 2 bytes).
pub open spec fn expand_mask_spec(rho_pp: Seq<u8>, n: int) -> Seq<int> {
    polyz_unpack_spec(shake256_output(rho_pp + seq![(n % 256) as u8, (n / 256) as u8], 640))
}

/// ExpandMask: y[i] from nonce kappa + i.
pub open spec fn mask_spec(rho_pp: Seq<u8>, kappa: int) -> Seq<Seq<int>> {
    Seq::new(5, |i: int| expand_mask_spec(rho_pp, kappa + i))
}

// ---------------------------------------------------------------------------
// Byte encodings (Algorithms 22 to 28)
// ---------------------------------------------------------------------------

/// The six packed polynomials of t1, 320 bytes each.
pub open spec fn t1_bytes(t1: Seq<Seq<int>>) -> Seq<u8> {
    Seq::new(1920, |k: int| polyt1_pack_spec(t1[k / 320])[k % 320])
}

/// pkEncode: rho || SimpleBitPack(t1[0]) || ... || SimpleBitPack(t1[5]).
pub open spec fn pk_encode(rho: Seq<u8>, t1: Seq<Seq<int>>) -> Seq<u8> {
    rho + t1_bytes(t1)
}

/// The first n polynomials of s packed with eta = 4, 128 bytes each.
pub open spec fn eta_bytes(s: Seq<Seq<int>>, n: int) -> Seq<u8> {
    Seq::new((128 * n) as nat, |k: int| polyeta_pack_spec(s[k / 128])[k % 128])
}

/// The six packed polynomials of t0, 416 bytes each.
pub open spec fn t0_bytes(t0: Seq<Seq<int>>) -> Seq<u8> {
    Seq::new(2496, |k: int| polyt0_pack_spec(t0[k / 416])[k % 416])
}

/// skEncode: rho || K || tr || s1 || s2 || t0.
pub open spec fn sk_encode(rho: Seq<u8>, key: Seq<u8>, tr: Seq<u8>, s1: Seq<Seq<int>>, s2: Seq<Seq<int>>,
    t0: Seq<Seq<int>>) -> Seq<u8> {
    rho + key + tr + eta_bytes(s1, 5) + eta_bytes(s2, 6) + t0_bytes(t0)
}

/// n polynomials with eta = 4 unpacked from b, starting at byte off.
pub open spec fn eta_vec_at(b: Seq<u8>, off: int, n: int) -> Seq<Seq<int>> {
    Seq::new(n as nat, |i: int| polyeta_unpack_spec(b.subrange(off + 128 * i, off + 128 * i + 128)))
}

/// Six polynomials t0 unpacked from b, starting at byte off.
pub open spec fn t0_vec_at(b: Seq<u8>, off: int) -> Seq<Seq<int>> {
    Seq::new(6, |i: int| polyt0_unpack_spec(b.subrange(off + 416 * i, off + 416 * i + 416)))
}

/// Six polynomials t1 unpacked from b, starting at byte off.
pub open spec fn t1_vec_at(b: Seq<u8>, off: int) -> Seq<Seq<int>> {
    Seq::new(6, |i: int| polyt1_unpack_spec(b.subrange(off + 320 * i, off + 320 * i + 320)))
}

/// Five polynomials z unpacked from b, starting at byte off.
pub open spec fn z_vec_at(b: Seq<u8>, off: int) -> Seq<Seq<int>> {
    Seq::new(5, |i: int| polyz_unpack_spec(b.subrange(off + 640 * i, off + 640 * i + 640)))
}

/// w1Encode: the six polynomials of w1, 128 bytes each.
pub open spec fn w1_bytes(w1: Seq<Seq<int>>) -> Seq<u8> {
    Seq::new(768, |k: int| polyw1_pack_spec(w1[k / 128])[k % 128])
}

/// The five packed polynomials of z, 640 bytes each.
pub open spec fn z_bytes(z: Seq<Seq<int>>) -> Seq<u8> {
    Seq::new(3200, |k: int| polyz_pack_spec(z[k / 640])[k % 640])
}

/// The position (in its polynomial) of the k-th nonzero coefficient of h,
/// counting from the first polynomial, for k below the number of them.
pub open spec fn hint_positions(h: Seq<Seq<int>>, t: int) -> Seq<int>
    decreases t,
{
    if t <= 0 {
        Seq::empty()
    } else {
        let prev = hint_positions(h, t - 1);
        if h[(t - 1) / 256][(t - 1) % 256] != 0 { prev.push((t - 1) % 256) } else { prev }
    }
}

/// HintBitPack: the positions of the nonzero coefficients padded with zeros to
/// OMEGA bytes, then the cumulative count after each polynomial.
pub open spec fn hint_bytes(h: Seq<Seq<int>>) -> Seq<u8> {
    let pos = hint_positions(h, 1536);
    Seq::new(61, |k: int|
        if k < 55 {
            if k < pos.len() { pos[k] as u8 } else { 0u8 }
        } else {
            hint_positions(h, 256 * (k - 54)).len() as u8
        })
}

/// The number of nonzero coefficients of h.
pub open spec fn hint_total(h: Seq<Seq<int>>) -> int {
    hint_positions(h, 1536).len() as int
}

/// HintBitUnpack of a well-formed encoding: 1 at the listed positions.
pub open spec fn hint_decode(b: Seq<u8>) -> Seq<Seq<int>> {
    Seq::new(6, |i: int| Seq::new(256, |j: int| if hint_listed(b, i, j) { 1int } else { 0int }))
}

// ---------------------------------------------------------------------------
// Key generation (Algorithm 6)
// ---------------------------------------------------------------------------

/// The 128-byte seed expansion of key generation: H(xi || 0x02 || 0x00, 128).
pub open spec fn keygen_expansion(xi: Seq<u8>) -> Seq<u8> {
    shake256_output(xi + seq![2u8, 0u8], 128)
}

pub open spec fn keygen_rho(xi: Seq<u8>) -> Seq<u8> {
    keygen_expansion(xi).subrange(0, 32)
}

pub open spec fn keygen_rho_prime(xi: Seq<u8>) -> Seq<u8> {
    keygen_expansion(xi).subrange(32, 96)
}

pub open spec fn keygen_key(xi: Seq<u8>) -> Seq<u8> {
    keygen_expansion(xi).subrange(96, 128)
}

/// t = NTT^-1(A * NTT(s1)) + s2, reduced modulo q.
pub open spec fn keygen_t(xi: Seq<u8>) -> Seq<Seq<int>> {
    let rho_prime = keygen_rho_prime(xi);
    vreduce(vadd(vinvntt(matmul_spec(expand_a_spec(keygen_rho(xi)), vntt(expand_s1_spec(rho_prime)))),
        expand_s2_spec(rho_prime)))
}

/// The public key derived from the seed xi.
pub open spec fn keygen_pk(xi: Seq<u8>) -> Seq<u8> {
    pk_encode(keygen_rho(xi), vp2r_high(keygen_t(xi)))
}

/// The secret key derived from the seed xi.
pub open spec fn keygen_sk(xi: Seq<u8>) -> Seq<u8> {
    let rho_prime = keygen_rho_prime(xi);
    sk_encode(keygen_rho(xi), keygen_key(xi), shake256_output(keygen_pk(xi), 64),
        expand_s1_spec(rho_prime), expand_s2_spec(rho_prime), vp2r_low(keygen_t(xi)))
}

// ---------------------------------------------------------------------------
// Signing (Algorithm 7)
// ---------------------------------------------------------------------------

pub open spec fn sk_rho(sk: Seq<u8>) -> Seq<u8> {
    sk.subrange(0, 32)
}

pub open spec fn sk_key(sk: Seq<u8>) -> Seq<u8> {
    sk.subrange(32, 64)
}

pub open spec fn sk_tr(sk: Seq<u8>) -> Seq<u8> {
    sk.subrange(64, 128)
}

pub open spec fn sk_s1(sk: Seq<u8>) -> Seq<Seq<int>> {
    eta_vec_at(sk, 128, 5)
}

pub open spec fn sk_s2(sk: Seq<u8>) -> Seq<Seq<int>> {
    eta_vec_at(sk, 768, 6)
}

pub open spec fn sk_t0(sk: Seq<u8>) -> Seq<Seq<int>> {
    t0_vec_at(sk, 1536)
}

/// mu = H(tr || M', 64).
pub open spec fn message_digest(tr: Seq<u8>, msg: Seq<u8>) -> Seq<u8> {
    shake256_output(tr + msg, 64)
}

/// rho'' = H(K || rnd || mu, 64).
pub open spec fn private_seed(key: Seq<u8>, rnd: Seq<u8>, mu: Seq<u8>) -> Seq<u8> {
    shake256_output(key + rnd + mu, 64)
}

/// The hint vector of one attempt: MakeHint(-ct0, w - cs2 + ct0).
pub open spec fn hint_vector(ct0: Seq<Seq<int>>, wm: Seq<Seq<int>>) -> Seq<Seq<int>> {
    Seq::new(6, |i: int| Seq::new(256, |j: int|
        make_hint_spec((-ct0[i][j]) % q(), (wm[i][j] + ct0[i][j]) % q())))
}

/// The response z = y + NTT^-1(c * s1) of one attempt.
pub open spec fn response_z(y: Seq<Seq<int>>, c_hat: Seq<int>, s1_hat: Seq<Seq<int>>) -> Seq<Seq<int>> {
    vadd(y, vinvntt(cmul(c_hat, s1_hat)))
}

/// w - NTT^-1(c * s2) of one attempt.
pub open spec fn response_wm(w: Seq<Seq<int>>, c_hat: Seq<int>, s2_hat: Seq<Seq<int>>) -> Seq<Seq<int>> {
    vsub(w, vinvntt(cmul(c_hat, s2_hat)))
}

/// NTT^-1(c * t0) of one attempt, reduced modulo q.
pub open spec fn response_ct0(c_hat: Seq<int>, t0_hat: Seq<Seq<int>>) -> Seq<Seq<int>> {
    vreduce(vinvntt(cmul(c_hat, t0_hat)))
}

/// The checks of an attempt: ||z|| < gamma1 - beta, ||r0|| < gamma2 - beta,
/// ||ct0|| < gamma2 and at most OMEGA hints.
pub open spec fn response_ok(z: Seq<Seq<int>>, wm: Seq<Seq<int>>, ct0: Seq<Seq<int>>) -> bool {
    &&& vnorm_below(z, 524288 - 196)
    &&& vnorm_below(vlow(wm), 261888 - 196)
    &&& vnorm_below(ct0, 261888)
    &&& hint_total(hint_vector(ct0, wm)) <= 55
}

/// The commitment w = NTT^-1(A * NTT(y)), reduced modulo q.
pub open spec fn commitment(a: Seq<Seq<Seq<int>>>, y: Seq<Seq<int>>) -> Seq<Seq<int>> {
    vreduce(vinvntt(matmul_spec(a, vntt(y))))
}

/// One iteration of the rejection loop of signing with counter kappa, for the
/// key parts rho, s1, s2 and t0: the signature it produces, or None when it is
/// rejected.
#[verifier::opaque]
pub open spec fn attempt_with(rho: Seq<u8>, s1: Seq<Seq<int>>, s2: Seq<Seq<int>>, t0: Seq<Seq<int>>,
    mu: Seq<u8>, rho_pp: Seq<u8>, kappa: int) -> Option<Seq<u8>> {
    let y = mask_spec(rho_pp, kappa);
    let w = commitment(expand_a_spec(rho), y);
    let c_tilde = shake256_output(mu + w1_bytes(vhigh(w)), 48);
    let c_hat = ntt_spec(sample_in_ball_spec(c_tilde));
    let z = response_z(y, c_hat, vntt(s1));
    let wm = response_wm(w, c_hat, vntt(s2));
    let ct0 = response_ct0(c_hat, vntt(t0));
    if response_ok(z, wm, ct0) {
        Some(c_tilde + z_bytes(vcentered(z)) + hint_bytes(hint_vector(ct0, wm)))
    } else {
        None
    }
}

/// The rejection loop from counter kappa on, in steps of L, for the key parts
/// rho, s1, s2 and t0; None once the 16-bit counter is exhausted.
pub open spec fn loop_with(rho: Seq<u8>, s1: Seq<Seq<int>>, s2: Seq<Seq<int>>, t0: Seq<Seq<int>>,
    mu: Seq<u8>, rho_pp: Seq<u8>, kappa: int) -> Option<Seq<u8>>
    decreases 65536 - kappa,
{
    if kappa < 0 || kappa > 65530 {
        None
    } else {
        match attempt_with(rho, s1, s2, t0, mu, rho_pp, kappa) {
            Some(sig) => Some(sig),
            None => loop_with(rho, s1, s2, t0, mu, rho_pp, kappa + 5),
        }
    }
}

/// One iteration of the rejection loop of signing with counter kappa: the
/// signature it produces, or None when it is rejected.
pub open spec fn sign_attempt(sk: Seq<u8>, mu: Seq<u8>, rho_pp: Seq<u8>, kappa: int) -> Option<Seq<u8>> {
    attempt_with(sk_rho(sk), sk_s1(sk), sk_s2(sk), sk_t0(sk), mu, rho_pp, kappa)
}

/// The rejection loop from counter kappa on, in steps of L; None once the
/// 16-bit counter is exhausted.
pub open spec fn sign_loop(sk: Seq<u8>, mu: Seq<u8>, rho_pp: Seq<u8>, kappa: int) -> Option<Seq<u8>>
    decreases 65536 - kappa,
{
    if kappa < 0 || kappa > 65530 {
        None
    } else {
        match sign_attempt(sk, mu, rho_pp, kappa) {
            Some(sig) => Some(sig),
            None => sign_loop(sk, mu, rho_pp, kappa + 5),
        }
    }
}

/// Sign_internal on the secret key, the formatted message M' and the 32 random
/// bytes rnd.
pub open spec fn sign_spec(sk: Seq<u8>, msg: Seq<u8>, rnd: Seq<u8>) -> Option<Seq<u8>> {
    let mu = message_digest(sk_tr(sk), msg);
    sign_loop(sk, mu, private_seed(sk_key(sk), rnd, mu), 0)
}

/// M' for the external interface with an empty context:
/// IntegerToBytes(0, 1) || IntegerToBytes(0, 1) || M.
pub open spec fn formatted_message(msg: Seq<u8>) -> Seq<u8> {
    seq![0u8, 0u8] + msg
}

// ---------------------------------------------------------------------------
// Verification (Algorithm 8)
// ---------------------------------------------------------------------------

pub open spec fn pk_t1(pk: Seq<u8>) -> Seq<Seq<int>> {
    t1_vec_at(pk, 32)
}

pub open spec fn sig_z(sig: Seq<u8>) -> Seq<Seq<int>> {
    z_vec_at(sig, 48)
}

pub open spec fn sig_hint_bytes(sig: Seq<u8>) -> Seq<u8> {
    sig.subrange(3248, 3309)
}

/// t1 * 2^d modulo q.
pub open spec fn shift_t1(t1: Seq<Seq<int>>) -> Seq<Seq<int>> {
    Seq::new(6, |i: int| Seq::new(256, |j: int| (t1[i][j] * 8192) % q()))
}

/// UseHint on every coefficient.
pub open spec fn use_hints(h: Seq<Seq<int>>, w: Seq<Seq<int>>) -> Seq<Seq<int>> {
    Seq::new(6, |i: int| Seq::new(256, |j: int| use_hint_spec(h[i][j], w[i][j])))
}

/// The commitment hash c~' recomputed by the verifier.
pub open spec fn verify_challenge(pk: Seq<u8>, msg: Seq<u8>, sig: Seq<u8>) -> Seq<u8> {
    let c_tilde = sig.subrange(0, 48);
    let c_hat = ntt_spec(sample_in_ball_spec(c_tilde));
    let mu = message_digest(shake256_output(pk, 64), msg);
    let az = vreduce(vinvntt(matmul_spec(expand_a_spec(pk.subrange(0, 32)), vntt(sig_z(sig)))));
    let ct1 = vreduce(vinvntt(cmul(c_hat, vntt(shift_t1(pk_t1(pk))))));
    let w_approx = vreduce(vsub(az, ct1));
    shake256_output(mu + w1_bytes(use_hints(hint_decode(sig_hint_bytes(sig)), w_approx)), 48)
}

/// The verdict of Verify_internal: a malformed hint encoding is an error; a
/// response z out of bounds, or a challenge that does not match, is `false`.
pub open spec fn verify_spec(pk: Seq<u8>, msg: Seq<u8>, sig: Seq<u8>) -> Option<bool> {
    if !hint_encoding_valid(sig_hint_bytes(sig)) {
        None
    } else if !vnorm_below(sig_z(sig), 524288 - 196) {
        Some(false)
    } else {
        Some(verify_challenge(pk, msg, sig) == sig.subrange(0, 48))
    }
}

// ---------------------------------------------------------------------------
// Index arithmetic for concatenated blocks
// ---------------------------------------------------------------------------

/// Position k of a sequence of blocks of `size` bytes is byte k % size of block k / size.
pub proof fn lemma_block_index(k: int, size: int)
    requires
        0 <= k,
        0 < size,
    ensures
        k == size * (k / size) + k % size,
        0 <= k % size < size,
        0 <= k / size,
{
    vstd::arithmetic::div_mod::lemma_fundamental_div_mod(k, size);
    vstd::arithmetic::div_mod::lemma_mod_bound(k, size);
    vstd::arithmetic::div_mod::lemma_div_pos_is_pos(k, size);
}

/// Block i, byte n of a sequence of blocks of `size` bytes sits at size * i + n.
pub proof fn lemma_block_split(i: int, n: int, size: int)
    requires
        0 <= i,
        0 <= n < size,
        0 < size,
    ensures
        (size * i + n) / size == i,
        (size * i + n) % size == n,
{
    assert(size * i == i * size) by (nonlinear_arith);
    vstd::arithmetic::div_mod::lemma_fundamental_div_mod_converse(size * i + n, size, i, n);
}

} // verus!

verus! {

// ---------------------------------------------------------------------------
// Laws of the key encodings
// ---------------------------------------------------------------------------

/// Block i of `t1_bytes(t1)` is the packing of t1[i].
proof fn lemma_t1_block(t1: Seq<Seq<int>>, i: int)
    requires
        0 <= i < 6,
    ensures
        t1_bytes(t1).subrange(320 * i, 320 * i + 320) == polyt1_pack_spec(t1[i]),
{
    assert forall|n: int| 0 <= n < 320 implies
        #[trigger] t1_bytes(t1).subrange(320 * i, 320 * i + 320)[n] == polyt1_pack_spec(t1[i])[n] by {
        lemma_block_split(i, n, 320);
    }
    assert(t1_bytes(t1).subrange(320 * i, 320 * i + 320) =~= polyt1_pack_spec(t1[i]));
}

/// Block i of `eta_bytes(s, n)` is the packing of s[i].
proof fn lemma_eta_block(s: Seq<Seq<int>>, n: int, i: int)
    requires
        0 <= i < n,
    ensures
        eta_bytes(s, n).subrange(128 * i, 128 * i + 128) == polyeta_pack_spec(s[i]),
{
    assert forall|k: int| 0 <= k < 128 implies
        #[trigger] eta_bytes(s, n).subrange(128 * i, 128 * i + 128)[k] == polyeta_pack_spec(s[i])[k] by {
        lemma_block_split(i, k, 128);
        assert(128 * i + k < 128 * n);
    }
    assert(eta_bytes(s, n).subrange(128 * i, 128 * i + 128) =~= polyeta_pack_spec(s[i]));
}

/// Block i of `t0_bytes(t0)` is the packing of t0[i].
proof fn lemma_t0_block(t0: Seq<Seq<int>>, i: int)
    requires
        0 <= i < 6,
    ensures
        t0_bytes(t0).subrange(416 * i, 416 * i + 416) == polyt0_pack_spec(t0[i]),
{
    assert forall|n: int| 0 <= n < 416 implies
        #[trigger] t0_bytes(t0).subrange(416 * i, 416 * i + 416)[n] == polyt0_pack_spec(t0[i])[n] by {
        lemma_block_split(i, n, 416);
    }
    assert(t0_bytes(t0).subrange(416 * i, 416 * i + 416) =~= polyt0_pack_spec(t0[i]));
}

/// pkDecode undoes pkEncode: the seed and the vector t1 (coefficients below
/// 2^10) read back from an encoded public key are those that were written.
pub proof fn lemma_pk_roundtrip(rho: Seq<u8>, t1: Seq<Seq<int>>)
    requires
        rho.len() == 32,
        t1.len() == 6,
        forall|i: int| 0 <= i < 6 ==> #[trigger] t1[i].len() == 256,
        forall|i: int, c: int| 0 <= i < 6 && 0 <= c < 256 ==> 0 <= #[trigger] t1[i][c] < 1024,
    ensures
        pk_encode(rho, t1).len() == 1952,
        pk_encode(rho, t1).subrange(0, 32) == rho,
        pk_t1(pk_encode(rho, t1)) == t1,
{
    let pk = pk_encode(rho, t1);
    assert(pk.subrange(0, 32) =~= rho);
    assert forall|i: int| 0 <= i < 6 implies #[trigger] pk_t1(pk)[i] == t1[i] by {
        lemma_t1_block(t1, i);
        assert(pk.subrange(32 + 320 * i, 32 + 320 * i + 320) =~= t1_bytes(t1).subrange(320 * i, 320 * i + 320));
        lemma_t1_roundtrip(t1[i]);
    }
    assert(pk_t1(pk) =~= t1);
}

/// skDecode undoes skEncode: rho, K, tr, s1, s2 and t0 read back from an
/// encoded secret key are those that were written (s1 and s2 with coefficients
/// in [-11, 4], t0 in (-2^12, 2^12]).
#[verifier::spinoff_prover]
pub proof fn lemma_sk_roundtrip(rho: Seq<u8>, key: Seq<u8>, tr: Seq<u8>, s1: Seq<Seq<int>>, s2: Seq<Seq<int>>,
    t0: Seq<Seq<int>>)
    requires
        rho.len() == 32,
        key.len() == 32,
        tr.len() == 64,
        s1.len() == 5,
        s2.len() == 6,
        t0.len() == 6,
        forall|i: int| 0 <= i < 5 ==> #[trigger] s1[i].len() == 256 && eta_digits_fit(s1[i]),
        forall|i: int| 0 <= i < 6 ==> #[trigger] s2[i].len() == 256 && eta_digits_fit(s2[i]),
        forall|i: int| 0 <= i < 6 ==> #[trigger] t0[i].len() == 256,
        forall|i: int, c: int| 0 <= i < 6 && 0 <= c < 256 ==> -4096 < #[trigger] t0[i][c] <= 4096,
    ensures
        sk_encode(rho, key, tr, s1, s2, t0).len() == 4032,
        sk_rho(sk_encode(rho, key, tr, s1, s2, t0)) == rho,
        sk_key(sk_encode(rho, key, tr, s1, s2, t0)) == key,
        sk_tr(sk_encode(rho, key, tr, s1, s2, t0)) == tr,
        sk_s1(sk_encode(rho, key, tr, s1, s2, t0)) == s1,
        sk_s2(sk_encode(rho, key, tr, s1, s2, t0)) == s2,
        sk_t0(sk_encode(rho, key, tr, s1, s2, t0)) == t0,
{
    let sk = sk_encode(rho, key, tr, s1, s2, t0);
    let b1 = eta_bytes(s1, 5);
    let b2 = eta_bytes(s2, 6);
    let b3 = t0_bytes(t0);
    assert(sk =~= rho + key + tr + b1 + b2 + b3);
    assert(sk.subrange(0, 32) =~= rho);
    assert(sk.subrange(32, 64) =~= key);
    assert(sk.subrange(64, 128) =~= tr);
    assert forall|i: int| 0 <= i < 5 implies #[trigger] sk_s1(sk)[i] == s1[i] by {
        lemma_eta_block(s1, 5, i);
        assert(sk.subrange(128 + 128 * i, 128 + 128 * i + 128) =~= b1.subrange(128 * i, 128 * i + 128));
        assert(s1[i].len() == 256 && eta_digits_fit(s1[i]));
        lemma_eta_roundtrip(s1[i]);
    }
    assert forall|i: int| 0 <= i < 6 implies #[trigger] sk_s2(sk)[i] == s2[i] by {
        lemma_eta_block(s2, 6, i);
        assert(sk.subrange(768 + 128 * i, 768 + 128 * i + 128) =~= b2.subrange(128 * i, 128 * i + 128));
        assert(s2[i].len() == 256 && eta_digits_fit(s2[i]));
        lemma_eta_roundtrip(s2[i]);
    }
    assert forall|i: int| 0 <= i < 6 implies #[trigger] sk_t0(sk)[i] == t0[i] by {
        lemma_t0_block(t0, i);
        assert(sk.subrange(1536 + 416 * i, 1536 + 416 * i + 416) =~= b3.subrange(416 * i, 416 * i + 416));
        lemma_t0_roundtrip(t0[i]);
    }
    assert(sk_s1(sk) =~= s1);
    assert(sk_s2(sk) =~= s2);
    assert(sk_t0(sk) =~= t0);
}

} // verus!

verus! {

/// The high part of Power2Round lies in [0, 2^10), the low part in
/// (-2^12, 2^12], and t1 * 2^13 + t0 is r modulo q.
pub proof fn lemma_power2round_parts(r: int)
    ensures
        0 <= power2round_spec(r).0 < 1024,
        -4096 < power2round_spec(r).1 <= 4096,
        power2round_spec(r).0 * 8192 + power2round_spec(r).1 == r % q(),
{
    let rp = r % q();
    let t = rp % 8192;
    let r0 = if t > 4096 { t - 8192 } else { t };
    assert(0 <= rp < q());
    vstd::arithmetic::div_mod::lemma_fundamental_div_mod(rp, 8192);
    assert((rp - r0) % 8192 == 0) by {
        vstd::arithmetic::div_mod::lemma_fundamental_div_mod(rp, 8192);
        if t > 4096 {
            vstd::arithmetic::div_mod::lemma_fundamental_div_mod_converse(rp - r0, 8192, rp / 8192 + 1, 0);
        } else {
            vstd::arithmetic::div_mod::lemma_fundamental_div_mod_converse(rp - r0, 8192, rp / 8192, 0);
        }
    }
    vstd::arithmetic::div_mod::lemma_fundamental_div_mod(rp - r0, 8192);
}

/// The keys derived from one seed agree: the secret key holds the public
/// seed rho and tr = H(pk, 64), its s1 and s2 are those of ExpandS, and the
/// t1 of the public key and the t0 of the secret key recombine to
/// t = t1 * 2^13 + t0.
pub proof fn lemma_keygen_consistent(xi: Seq<u8>)
    requires
        keygen_expansion(xi).len() == 128,
        shake256_output(keygen_pk(xi), 64).len() == 64,
    ensures
        keygen_pk(xi).len() == 1952,
        keygen_sk(xi).len() == 4032,
        sk_rho(keygen_sk(xi)) == keygen_pk(xi).subrange(0, 32),
        sk_tr(keygen_sk(xi)) == shake256_output(keygen_pk(xi), 64),
        sk_s1(keygen_sk(xi)) == expand_s1_spec(keygen_rho_prime(xi)),
        sk_s2(keygen_sk(xi)) == expand_s2_spec(keygen_rho_prime(xi)),
        forall|i: int, c: int| 0 <= i < 6 && 0 <= c < 256 ==>
            #[trigger] pk_t1(keygen_pk(xi))[i][c] * 8192 + sk_t0(keygen_sk(xi))[i][c] == keygen_t(xi)[i][c],
        sk_rho(keygen_sk(xi)) == keygen_rho(xi),
{
    let t = keygen_t(xi);
    let t1 = vp2r_high(t);
    let t0 = vp2r_low(t);
    let rho_p = keygen_rho_prime(xi);
    let s1 = expand_s1_spec(rho_p);
    let s2 = expand_s2_spec(rho_p);
    assert forall|i: int, c: int| 0 <= i < 6 && 0 <= c < 256 implies
        0 <= #[trigger] t1[i][c] < 1024 && -4096 < t0[i][c] <= 4096 && t1[i][c] * 8192 + t0[i][c] == t[i][c] by {
        lemma_power2round_parts(t[i][c]);
        assert(t[i] == reduce_spec(vadd(vinvntt(matmul_spec(expand_a_spec(keygen_rho(xi)), vntt(s1))), s2)[i]));
        assert(0 <= t[i][c] < q());
        vstd::arithmetic::div_mod::lemma_small_mod(t[i][c] as nat, q() as nat);
    }
    assert forall|i: int| 0 <= i < 5 implies #[trigger] s1[i].len() == 256 && eta_digits_fit(s1[i]) by {
        lemma_rej_bounded_range(seed_with_nonce(rho_p, i));
    }
    assert forall|i: int| 0 <= i < 6 implies #[trigger] s2[i].len() == 256 && eta_digits_fit(s2[i]) by {
        lemma_rej_bounded_range(seed_with_nonce(rho_p, i + 5));
    }
    lemma_pk_roundtrip(keygen_rho(xi), t1);
    lemma_sk_roundtrip(keygen_rho(xi), keygen_key(xi), shake256_output(keygen_pk(xi), 64), s1, s2, t0);
}

} // verus!

verus! {

// ---------------------------------------------------------------------------
// The verifier's recomputed commitment
// ---------------------------------------------------------------------------

/// a and b agree modulo q.
pub open spec fn eqm(a: int, b: int) -> bool {
    a % q() == b % q()
}

proof fn lemma_eqm_add(a1: int, b1: int, a2: int, b2: int)
    requires
        eqm(a1, b1),
        eqm(a2, b2),
    ensures
        eqm(a1 + a2, b1 + b2),
{
    vstd::arithmetic::div_mod::lemma_add_mod_noop(a1, a2, q());
    vstd::arithmetic::div_mod::lemma_add_mod_noop(b1, b2, q());
}

proof fn lemma_eqm_mul(c: int, a: int, b: int)
    requires
        eqm(a, b),
    ensures
        eqm(c * a, c * b),
{
    vstd::arithmetic::div_mod::lemma_mul_mod_noop_right(c, a, q());
    vstd::arithmetic::div_mod::lemma_mul_mod_noop_right(c, b, q());
}

proof fn lemma_eqm_mod(a: int)
    ensures
        eqm(a % q(), a),
{
    vstd::arithmetic::div_mod::lemma_mod_twice(a, q());
}

/// The matrix-vector product is linear: when every zh[j] is yh[j] + ch * sh[j]
/// at coefficient c modulo q, so is the dot product with a row.
#[verifier::spinoff_prover]
proof fn lemma_dot_linear(row: Seq<Seq<int>>, zh: Seq<Seq<int>>, yh: Seq<Seq<int>>, sh: Seq<Seq<int>>,
    ch: int, c: int, n: int)
    requires
        forall|j: int| 0 <= j < n ==> #[trigger] eqm(zh[j][c], yh[j][c] + ch * sh[j][c]),
    ensures
        eqm(dot_upto(row, zh, c, n), dot_upto(row, yh, c, n) + ch * dot_upto(row, sh, c, n)),
    decreases n,
{
    if n > 0 {
        lemma_dot_linear(row, zh, yh, sh, ch, c, n - 1);
        let r = row[n - 1][c];
        assert(eqm(zh[n - 1][c], yh[n - 1][c] + ch * sh[n - 1][c]));
        lemma_eqm_mul(r, zh[n - 1][c], yh[n - 1][c] + ch * sh[n - 1][c]);
        assert(r * (yh[n - 1][c] + ch * sh[n - 1][c]) == r * yh[n - 1][c] + ch * (r * sh[n - 1][c]))
            by (nonlinear_arith);
        let dz = dot_upto(row, zh, c, n - 1);
        let dy = dot_upto(row, yh, c, n - 1);
        let ds = dot_upto(row, sh, c, n - 1);
        lemma_eqm_add(dz, dy + ch * ds, r * zh[n - 1][c], r * yh[n - 1][c] + ch * (r * sh[n - 1][c]));
        assert(dy + ch * ds + (r * yh[n - 1][c] + ch * (r * sh[n - 1][c]))
            == (dy + r * yh[n - 1][c]) + ch * (ds + r * sh[n - 1][c])) by (nonlinear_arith);
    }
}


/// The verifier's approximation of the commitment: NTT^-1(A * NTT(z)) minus
/// NTT^-1(c * NTT(t1 * 2^d)), reduced modulo q.
pub open spec fn approx_commitment(rho: Seq<u8>, z: Seq<Seq<int>>, c_hat: Seq<int>, t1: Seq<Seq<int>>) -> Seq<Seq<int>> {
    let az = vreduce(vinvntt(matmul_spec(expand_a_spec(rho), vntt(z))));
    let ct1 = vreduce(vinvntt(cmul(c_hat, vntt(shift_t1(t1)))));
    vreduce(vsub(az, ct1))
}

/// The NTT of the response: NTT(z) = NTT(y) + c * NTT(s1) modulo q, for any z
/// congruent to y + NTT^-1(c * NTT(s1)).
#[verifier::spinoff_prover]
proof fn lemma_response_ntt(zz: Seq<int>, y: Seq<int>, c_hat: Seq<int>, s1_hat: Seq<int>)
    requires
        crate::ntt::congruent(zz, add_spec(y, invntt_spec(pointwise_spec(c_hat, s1_hat)))),
    ensures
        forall|c: int| 0 <= c < 256 ==> #[trigger] eqm(ntt_spec(zz)[c], ntt_spec(y)[c] + c_hat[c] * s1_hat[c]),
{
    let pw = pointwise_spec(c_hat, s1_hat);
    crate::ntt::lemma_ntt_congruent(zz, add_spec(y, invntt_spec(pw)));
    crate::ntt::lemma_ntt_additive(y, invntt_spec(pw));
    crate::ntt::lemma_ntt_roundtrip_rev(pw);
    assert forall|c: int| 0 <= c < 256 implies #[trigger] eqm(ntt_spec(zz)[c], ntt_spec(y)[c] + c_hat[c] * s1_hat[c]) by {
        assert(ntt_spec(zz)[c] == (ntt_spec(y)[c] + pw[c]) % q());
        lemma_eqm_mod(ntt_spec(y)[c] + pw[c]);
        lemma_eqm_mod(c_hat[c] * s1_hat[c]);
        lemma_eqm_add(ntt_spec(y)[c], ntt_spec(y)[c], pw[c], c_hat[c] * s1_hat[c]);
    }
}

/// The NTT of t1 * 2^d: NTT(t1 * 2^d) + NTT(t0) = A * NTT(s1) + NTT(s2) modulo q
/// when t1 * 2^d + t0 = NTT^-1(A * NTT(s1)) + s2 modulo q.
#[verifier::spinoff_prover]
proof fn lemma_shift_ntt(sh: Seq<int>, t0: Seq<int>, m: Seq<int>, s2: Seq<int>)
    requires
        crate::ntt::reduced(m),
        forall|c: int| 0 <= c < 256 ==> #[trigger] eqm(sh[c] + t0[c], invntt_spec(m)[c] + s2[c]),
    ensures
        forall|c: int| 0 <= c < 256 ==> #[trigger] eqm(ntt_spec(sh)[c] + ntt_spec(t0)[c], m[c] + ntt_spec(s2)[c]),
{
    let im = invntt_spec(m);
    let lhs = add_spec(sh, t0);
    let rhs = add_spec(im, s2);
    assert(crate::ntt::congruent(lhs, rhs)) by {
        assert forall|c: int| #![trigger lhs[c], rhs[c]] 0 <= c < 256 implies lhs[c] % q() == rhs[c] % q() by {
            assert(eqm(sh[c] + t0[c], im[c] + s2[c]));
            lemma_eqm_mod(sh[c] + t0[c]);
            lemma_eqm_mod(im[c] + s2[c]);
        }
    }
    let nl = ntt_spec(lhs);
    let nr = ntt_spec(rhs);
    let a = ntt_spec(sh);
    let b = ntt_spec(t0);
    let d = ntt_spec(s2);
    assert(nl == nr) by {
        crate::ntt::lemma_ntt_congruent(lhs, rhs);
    }
    assert(nl == add_spec(a, b)) by {
        crate::ntt::lemma_ntt_additive(sh, t0);
    }
    assert(nr == add_spec(m, d)) by {
        crate::ntt::lemma_ntt_additive(im, s2);
        crate::ntt::lemma_ntt_roundtrip_rev(m);
    }
    assert forall|c: int| 0 <= c < 256 implies #[trigger] eqm(a[c] + b[c], m[c] + d[c]) by {
        assert(nl[c] == (a[c] + b[c]) % q());
        assert(nr[c] == (m[c] + d[c]) % q());
    }
}


/// Row i of the identity behind verification, in the NTT domain:
/// (A * NTT(z))_i + c * NTT(s2)_i = c * NTT(t1 * 2^d)_i + (A * NTT(y))_i + c * NTT(t0)_i
/// modulo q, so that their inverse transforms agree.
#[verifier::spinoff_prover]
proof fn lemma_row_identity(p: Seq<int>, yh: Seq<int>, m: Seq<int>, c_hat: Seq<int>, shh: Seq<int>,
    s2h: Seq<int>, t0h: Seq<int>)
    requires
        forall|c: int| 0 <= c < 256 ==> #[trigger] eqm(p[c], yh[c] + c_hat[c] * m[c]),
        forall|c: int| 0 <= c < 256 ==> #[trigger] eqm(shh[c] + t0h[c], m[c] + s2h[c]),
    ensures
        invntt_spec(add_spec(p, pointwise_spec(c_hat, s2h)))
            == invntt_spec(add_spec(add_spec(pointwise_spec(c_hat, shh), yh), pointwise_spec(c_hat, t0h))),
{
    let l = add_spec(p, pointwise_spec(c_hat, s2h));
    let r = add_spec(add_spec(pointwise_spec(c_hat, shh), yh), pointwise_spec(c_hat, t0h));
    assert forall|c: int| #![trigger l[c], r[c]] 0 <= c < 256 implies l[c] % q() == r[c] % q() by {
        let ch = c_hat[c];
        let ps2 = (ch * s2h[c]) % q();
        let psh = (ch * shh[c]) % q();
        let pt0 = (ch * t0h[c]) % q();
        assert(eqm(p[c], yh[c] + ch * m[c]));
        assert(eqm(shh[c] + t0h[c], m[c] + s2h[c]));
        lemma_eqm_mod(ch * s2h[c]);
        lemma_eqm_mod(ch * shh[c]);
        lemma_eqm_mod(ch * t0h[c]);
        // left: p + c*s2 = y + c*m + c*s2
        lemma_eqm_add(p[c], yh[c] + ch * m[c], ps2, ch * s2h[c]);
        lemma_eqm_mod(p[c] + ps2);
        // right: c*sh + y + c*t0 = y + c*(sh + t0) = y + c*(m + s2)
        lemma_eqm_add(psh, ch * shh[c], yh[c], yh[c]);
        lemma_eqm_mod(psh + yh[c]);
        lemma_eqm_add((psh + yh[c]) % q(), ch * shh[c] + yh[c], pt0, ch * t0h[c]);
        lemma_eqm_mod((psh + yh[c]) % q() + pt0);
        lemma_eqm_mul(ch, shh[c] + t0h[c], m[c] + s2h[c]);
        assert(ch * shh[c] + yh[c] + ch * t0h[c] == yh[c] + ch * (shh[c] + t0h[c])) by (nonlinear_arith);
        assert(yh[c] + ch * m[c] + ch * s2h[c] == yh[c] + ch * (m[c] + s2h[c])) by (nonlinear_arith);
        lemma_eqm_add(yh[c], yh[c], ch * (shh[c] + t0h[c]), ch * (m[c] + s2h[c]));
    }
    crate::ntt::lemma_invntt_congruent(l, r);
}

/// NTT(z) = NTT(y) + c * NTT(s1) modulo q, for z congruent to the response.
#[verifier::spinoff_prover]
proof fn lemma_response_vec_ntt(y: Seq<Seq<int>>, c_hat: Seq<int>, s1: Seq<Seq<int>>, zz: Seq<Seq<int>>)
    requires
        forall|j: int, c: int| 0 <= j < 5 && 0 <= c < 256 ==>
            #[trigger] eqm(zz[j][c], response_z(y, c_hat, vntt(s1))[j][c]),
        s1.len() == 5,
        y.len() == 5,
        zz.len() == 5,
    ensures
        forall|j: int, c: int| 0 <= j < 5 && 0 <= c < 256 ==>
            #[trigger] eqm(vntt(zz)[j][c], vntt(y)[j][c] + c_hat[c] * vntt(s1)[j][c]),
{
    let s1h = vntt(s1);
    let zr = response_z(y, c_hat, s1h);
    assert forall|j: int, c: int| 0 <= j < 5 && 0 <= c < 256 implies
        #[trigger] eqm(vntt(zz)[j][c], vntt(y)[j][c] + c_hat[c] * vntt(s1)[j][c]) by {
        let target = add_spec(y[j], invntt_spec(pointwise_spec(c_hat, s1h[j])));
        assert(zr[j] == target);
        assert(crate::ntt::congruent(zz[j], target)) by {
            assert forall|cc: int| #![trigger zz[j][cc]] 0 <= cc < 256 implies zz[j][cc] % q() == target[cc] % q() by {
                assert(eqm(zz[j][cc], zr[j][cc]));
            }
        }
        lemma_response_ntt(zz[j], y[j], c_hat, s1h[j]);
    }
}

/// Row i of A * NTT(z) is row i of A * NTT(y) plus c times row i of A * NTT(s1), modulo q.
#[verifier::spinoff_prover]
proof fn lemma_row_product(a: Seq<Seq<Seq<int>>>, zh: Seq<Seq<int>>, yh: Seq<Seq<int>>, s1h: Seq<Seq<int>>,
    c_hat: Seq<int>, i: int)
    requires
        0 <= i < 6,
        forall|j: int, c: int| 0 <= j < 5 && 0 <= c < 256 ==> #[trigger] eqm(zh[j][c], yh[j][c] + c_hat[c] * s1h[j][c]),
    ensures
        forall|c: int| 0 <= c < 256 ==> #[trigger] eqm(matmul_spec(a, zh)[i][c],
            matmul_spec(a, yh)[i][c] + c_hat[c] * matmul_spec(a, s1h)[i][c]),
{
    assert forall|c: int| 0 <= c < 256 implies #[trigger] eqm(matmul_spec(a, zh)[i][c],
        matmul_spec(a, yh)[i][c] + c_hat[c] * matmul_spec(a, s1h)[i][c]) by {
        assert forall|j: int| 0 <= j < 5 implies #[trigger] eqm(zh[j][c], yh[j][c] + c_hat[c] * s1h[j][c]) by {}
        lemma_dot_linear(a[i], zh, yh, s1h, c_hat[c], c, 5);
        let dz = dot_upto(a[i], zh, c, 5);
        let dy = dot_upto(a[i], yh, c, 5);
        let ds = dot_upto(a[i], s1h, c, 5);
        assert(matmul_spec(a, zh)[i][c] == dz % q());
        assert(matmul_spec(a, yh)[i][c] == dy % q());
        assert(matmul_spec(a, s1h)[i][c] == ds % q());
        lemma_eqm_mod(dz);
        lemma_eqm_mod(dy);
        lemma_eqm_mod(ds);
        lemma_eqm_mul(c_hat[c], ds % q(), ds);
        lemma_eqm_add(dy % q(), dy, c_hat[c] * (ds % q()), c_hat[c] * ds);
    }
}

/// Row i of t1 * 2^d + t0 is row i of NTT^-1(A * NTT(s1)) + s2, modulo q.
#[verifier::spinoff_prover]
proof fn lemma_row_key(m: Seq<Seq<int>>, s2: Seq<Seq<int>>, t0: Seq<Seq<int>>, t1: Seq<Seq<int>>, i: int)
    requires
        0 <= i < 6,
        m.len() == 6,
        forall|c: int| 0 <= c < 256 ==> #[trigger] t1[i][c] * 8192 + t0[i][c] == vreduce(vadd(vinvntt(m), s2))[i][c],
    ensures
        forall|c: int| 0 <= c < 256 ==> #[trigger] eqm(shift_t1(t1)[i][c] + t0[i][c], invntt_spec(m[i])[c] + s2[i][c]),
{
    assert forall|c: int| 0 <= c < 256 implies #[trigger] eqm(shift_t1(t1)[i][c] + t0[i][c], invntt_spec(m[i])[c] + s2[i][c]) by {
        let v = invntt_spec(m[i])[c] + s2[i][c];
        assert(vreduce(vadd(vinvntt(m), s2))[i][c] == (v % q()) % q());
        assert(t1[i][c] * 8192 + t0[i][c] == (v % q()) % q());
        lemma_eqm_mod(v);
        lemma_eqm_mod(v % q());
        lemma_eqm_mod(t1[i][c] * 8192);
        assert(shift_t1(t1)[i][c] == (t1[i][c] * 8192) % q());
        lemma_eqm_add(shift_t1(t1)[i][c], t1[i][c] * 8192, t0[i][c], t0[i][c]);
    }
}

/// Reduced differences of congruent sums agree.
#[verifier::spinoff_prover]
#[verifier::rlimit(30)]
proof fn lemma_row_final(ip: int, is2: int, ish: int, iy: int, it0: int)
    requires
        eqm(ip + is2, ish + iy + it0),
    ensures
        ((ip % q() - ish % q()) % q()) % q() == ((iy % q() - is2) % q() + it0 % q()) % q(),
{
    let lv = ((ip % q() - ish % q()) % q()) % q();
    let rv = ((iy % q() - is2) % q() + it0 % q()) % q();
    assert(eqm(lv, ip - ish)) by {
        vstd::arithmetic::div_mod::lemma_sub_mod_noop(ip, ish, q());
        lemma_eqm_mod(ip % q() - ish % q());
        lemma_eqm_mod((ip % q() - ish % q()) % q());
    }
    assert(eqm(rv, iy - is2 + it0)) by {
        vstd::arithmetic::div_mod::lemma_sub_mod_noop_right(iy, is2, q());
        lemma_eqm_mod(iy % q() - is2);
        vstd::arithmetic::div_mod::lemma_sub_mod_noop(iy, is2, q());
        lemma_eqm_mod(it0);
        lemma_eqm_add((iy % q() - is2) % q(), iy - is2, it0 % q(), it0);
        lemma_eqm_mod((iy % q() - is2) % q() + it0 % q());
    }
    assert(eqm(ip - ish, iy - is2 + it0)) by {
        lemma_eqm_add(ip + is2, ish + iy + it0, -is2 - ish, -is2 - ish);
    }
    vstd::arithmetic::div_mod::lemma_small_mod(lv as nat, q() as nat);
    vstd::arithmetic::div_mod::lemma_small_mod(rv as nat, q() as nat);
}

/// Row i of the verifier's approximation, coefficient by coefficient.
#[verifier::spinoff_prover]
proof fn lemma_approx_row(rho: Seq<u8>, s1: Seq<Seq<int>>, s2: Seq<Seq<int>>, t0: Seq<Seq<int>>,
    t1: Seq<Seq<int>>, y: Seq<Seq<int>>, c_hat: Seq<int>, zz: Seq<Seq<int>>, i: int)
    requires
        0 <= i < 6,
        s2.len() == 6,
        t0.len() == 6,
        forall|j: int, c: int| 0 <= j < 5 && 0 <= c < 256 ==>
            #[trigger] eqm(vntt(zz)[j][c], vntt(y)[j][c] + c_hat[c] * vntt(s1)[j][c]),
        forall|c: int| 0 <= c < 256 ==> #[trigger] t1[i][c] * 8192 + t0[i][c]
            == vreduce(vadd(vinvntt(matmul_spec(expand_a_spec(rho), vntt(s1))), s2))[i][c],
    ensures
        forall|c: int| 0 <= c < 256 ==> #[trigger] approx_commitment(rho, zz, c_hat, t1)[i][c]
            == (response_wm(commitment(expand_a_spec(rho), y), c_hat, vntt(s2))[i][c]
                + response_ct0(c_hat, vntt(t0))[i][c]) % q(),
{
    let a = expand_a_spec(rho);
    let m = matmul_spec(a, vntt(s1));
    let p = matmul_spec(a, vntt(zz))[i];
    let my = matmul_spec(a, vntt(y))[i];
    let shh = ntt_spec(shift_t1(t1)[i]);
    let s2h = ntt_spec(s2[i]);
    let t0h = ntt_spec(t0[i]);
    lemma_row_product(a, vntt(zz), vntt(y), vntt(s1), c_hat, i);
    lemma_row_key(m, s2, t0, t1, i);
    lemma_shift_ntt(shift_t1(t1)[i], t0[i], m[i], s2[i]);
    lemma_row_identity(p, my, m[i], c_hat, shh, s2h, t0h);
    let ps2 = pointwise_spec(c_hat, s2h);
    let psh = pointwise_spec(c_hat, shh);
    let pt0 = pointwise_spec(c_hat, t0h);
    crate::ntt::lemma_invntt_additive(p, ps2);
    crate::ntt::lemma_invntt_additive(add_spec(psh, my), pt0);
    crate::ntt::lemma_invntt_additive(psh, my);
    let ip = invntt_spec(p);
    let is2 = invntt_spec(ps2);
    let ish = invntt_spec(psh);
    let iy = invntt_spec(my);
    let it0 = invntt_spec(pt0);
    assert forall|c: int| 0 <= c < 256 implies #[trigger] approx_commitment(rho, zz, c_hat, t1)[i][c]
        == (response_wm(commitment(a, y), c_hat, vntt(s2))[i][c] + response_ct0(c_hat, vntt(t0))[i][c]) % q() by {
        assert(add_spec(ip, is2)[c] == add_spec(add_spec(ish, iy), it0)[c]);
        assert(eqm(ip[c] + is2[c], ish[c] + iy[c] + it0[c])) by {
            lemma_eqm_mod(ip[c] + is2[c]);
            lemma_eqm_mod(ish[c] + iy[c]);
            lemma_eqm_add((ish[c] + iy[c]) % q(), ish[c] + iy[c], it0[c], it0[c]);
            lemma_eqm_mod((ish[c] + iy[c]) % q() + it0[c]);
        }
        lemma_row_final(ip[c], is2[c], ish[c], iy[c], it0[c]);
        assert(approx_commitment(rho, zz, c_hat, t1)[i][c] == (((ip[c] % q()) - (ish[c] % q())) % q()) % q());
        assert(response_wm(commitment(a, y), c_hat, vntt(s2))[i][c] == (iy[c] % q() - is2[c]) % q());
        assert(response_ct0(c_hat, vntt(t0))[i][c] == it0[c] % q());
    }
}

/// The verifier's approximation of the commitment is w - c*s2 + c*t0 (FIPS 204,
/// Section 3): for z congruent to y + c*s1 and t1 * 2^d + t0 = A*s1 + s2
/// modulo q, A*z - c*t1*2^d equals the signer's w - c*s2 plus c*t0, modulo q.
#[verifier::spinoff_prover]
pub proof fn lemma_approx_commitment(rho: Seq<u8>, s1: Seq<Seq<int>>, s2: Seq<Seq<int>>, t0: Seq<Seq<int>>,
    t1: Seq<Seq<int>>, y: Seq<Seq<int>>, c_hat: Seq<int>, zz: Seq<Seq<int>>)
    requires
        s1.len() == 5,
        s2.len() == 6,
        t0.len() == 6,
        t1.len() == 6,
        y.len() == 5,
        zz.len() == 5,
        forall|j: int, c: int| 0 <= j < 5 && 0 <= c < 256 ==>
            #[trigger] eqm(zz[j][c], response_z(y, c_hat, vntt(s1))[j][c]),
        forall|i: int, c: int| 0 <= i < 6 && 0 <= c < 256 ==> #[trigger] t1[i][c] * 8192 + t0[i][c]
            == vreduce(vadd(vinvntt(matmul_spec(expand_a_spec(rho), vntt(s1))), s2))[i][c],
    ensures
        forall|i: int, c: int| 0 <= i < 6 && 0 <= c < 256 ==> #[trigger] approx_commitment(rho, zz, c_hat, t1)[i][c]
            == (response_wm(commitment(expand_a_spec(rho), y), c_hat, vntt(s2))[i][c]
                + response_ct0(c_hat, vntt(t0))[i][c]) % q(),
{
    lemma_response_vec_ntt(y, c_hat, s1, zz);
    assert forall|i: int, c: int| 0 <= i < 6 && 0 <= c < 256 implies #[trigger] approx_commitment(rho, zz, c_hat, t1)[i][c]
        == (response_wm(commitment(expand_a_spec(rho), y), c_hat, vntt(s2))[i][c]
            + response_ct0(c_hat, vntt(t0))[i][c]) % q() by {
        assert forall|cc: int| 0 <= cc < 256 implies #[trigger] t1[i][cc] * 8192 + t0[i][cc]
            == vreduce(vadd(vinvntt(matmul_spec(expand_a_spec(rho), vntt(s1))), s2))[i][cc] by {}
        lemma_approx_row(rho, s1, s2, t0, t1, y, c_hat, zz, i);
    }
}


// ---------------------------------------------------------------------------
// Signatures verify
// ---------------------------------------------------------------------------

/// Block i of `z_bytes(z)` is the packing of z[i].
proof fn lemma_z_block(z: Seq<Seq<int>>, i: int)
    requires
        0 <= i < 5,
    ensures
        z_bytes(z).subrange(640 * i, 640 * i + 640) == polyz_pack_spec(z[i]),
{
    assert forall|n: int| 0 <= n < 640 implies
        #[trigger] z_bytes(z).subrange(640 * i, 640 * i + 640)[n] == polyz_pack_spec(z[i])[n] by {
        lemma_block_split(i, n, 640);
    }
    assert(z_bytes(z).subrange(640 * i, 640 * i + 640) =~= polyz_pack_spec(z[i]));
}

/// The centred representative of -x is minus that of x.
#[verifier::spinoff_prover]
proof fn lemma_centered_neg(x: int)
    ensures
        centered_spec((-x) % q()) == -centered_spec(x),
{
    lemma_centered_mod(x);
    let cx = centered_spec(x);
    lemma_centered_small(-cx);
    lemma_centered_mod(-cx);
    lemma_centered_mod((-x) % q());
    vstd::arithmetic::div_mod::lemma_mod_twice(-x, q());
    assert((-x) % q() == (-cx) % q()) by {
        vstd::arithmetic::div_mod::lemma_sub_mod_noop(0, x, q());
        vstd::arithmetic::div_mod::lemma_sub_mod_noop(0, cx, q());
        vstd::arithmetic::div_mod::lemma_small_mod(0, q() as nat);
    }
    lemma_centered_small(centered_spec((-x) % q()));
    assert(centered_spec((-x) % q()) == centered_spec(-cx)) by {
        vstd::arithmetic::div_mod::lemma_mod_twice(-cx, q());
    }
}

/// Centring is idempotent.
proof fn lemma_centered_idem(x: int)
    ensures
        centered_spec(centered_spec(x)) == centered_spec(x),
{
    lemma_centered_mod(x);
    lemma_centered_small(centered_spec(x));
}

/// A signature from the rejection loop was produced by one of its attempts.
proof fn lemma_loop_witness(rho: Seq<u8>, s1: Seq<Seq<int>>, s2: Seq<Seq<int>>, t0: Seq<Seq<int>>,
    mu: Seq<u8>, rho_pp: Seq<u8>, kappa: int, sig: Seq<u8>) -> (k: int)
    requires
        loop_with(rho, s1, s2, t0, mu, rho_pp, kappa) == Some(sig),
    ensures
        attempt_with(rho, s1, s2, t0, mu, rho_pp, k) == Some(sig),
    decreases 65536 - kappa,
{
    if kappa < 0 || kappa > 65530 {
        kappa
    } else {
        match attempt_with(rho, s1, s2, t0, mu, rho_pp, kappa) {
            Some(s) => kappa,
            None => lemma_loop_witness(rho, s1, s2, t0, mu, rho_pp, kappa + 5, sig),
        }
    }
}

/// sign_loop is the rejection loop on the key parts of the secret key.
proof fn lemma_sign_loop_is_loop(sk: Seq<u8>, mu: Seq<u8>, rho_pp: Seq<u8>, kappa: int)
    ensures
        sign_loop(sk, mu, rho_pp, kappa) == loop_with(sk_rho(sk), sk_s1(sk), sk_s2(sk), sk_t0(sk), mu, rho_pp, kappa),
    decreases 65536 - kappa,
{
    if !(kappa < 0 || kappa > 65530) {
        lemma_sign_loop_is_loop(sk, mu, rho_pp, kappa + 5);
    }
}

/// Every product of a challenge with s2 is at most beta = 196 in infinity norm.
pub open spec fn challenge_products_small(s2: Seq<Seq<int>>) -> bool {
    forall|ct: Seq<u8>| #[trigger] vnorm_below(vinvntt(cmul(ntt_spec(sample_in_ball_spec(ct)), vntt(s2))), 197)
}

/// The layout of a signature: c~ in the first 48 bytes, then z, then the hints.
#[verifier::spinoff_prover]
proof fn lemma_sig_layout(c_tilde: Seq<u8>, zc: Seq<Seq<int>>, h: Seq<Seq<int>>, sig: Seq<u8>)
    requires
        sig == c_tilde + z_bytes(zc) + hint_bytes(h),
        sig.len() == 3309,
        zc.len() == 5,
        forall|j: int| 0 <= j < 5 ==> #[trigger] zc[j].len() == 256,
        forall|j: int, c: int| 0 <= j < 5 && 0 <= c < 256 ==> 524288 - 1048576 < #[trigger] zc[j][c] <= 524288,
    ensures
        sig.subrange(0, 48) == c_tilde,
        sig_hint_bytes(sig) == hint_bytes(h),
        sig_z(sig) == zc,
{
    let zb = z_bytes(zc);
    assert(c_tilde.len() == 48);
    assert(sig.subrange(0, 48) =~= c_tilde);
    assert(sig_hint_bytes(sig) =~= hint_bytes(h));
    assert forall|j: int| 0 <= j < 5 implies #[trigger] sig_z(sig)[j] == zc[j] by {
        lemma_z_block(zc, j);
        assert(sig.subrange(48 + 640 * j, 48 + 640 * j + 640) =~= zb.subrange(640 * j, 640 * j + 640));
        lemma_z_roundtrip(zc[j]);
    }
    assert(sig_z(sig) =~= zc);
}

/// One coefficient of the verifier's UseHint: with ||c*t0|| below gamma2, the
/// low bits of w - c*s2 below gamma2 - beta and ||c*s2|| at most beta, UseHint
/// on w - c*s2 + c*t0 with the signer's hint gives the high bits of w.
#[verifier::spinoff_prover]
proof fn lemma_hint_coefficient(wm: int, ct0: int, w: int, d: int)
    requires
        abs_spec(centered_spec(ct0)) < 261888,
        abs_spec(centered_spec(decompose_spec(wm).1)) < 261692,
        abs_spec(centered_spec(d)) < 197,
        eqm(w, wm + d),
    ensures
        use_hint_spec(make_hint_spec((-ct0) % q(), (wm + ct0) % q()), (wm + ct0) % q()) == decompose_spec(w).0,
{
    let z = (-ct0) % q();
    let r = (wm + ct0) % q();
    lemma_centered_neg(ct0);
    lemma_use_hint_recovers(z, r);
    assert((r + z) % q() == wm % q()) by {
        vstd::arithmetic::div_mod::lemma_add_mod_noop(wm + ct0, -ct0, q());
        vstd::arithmetic::div_mod::lemma_mod_twice(wm + ct0, q());
        vstd::arithmetic::div_mod::lemma_mod_twice(-ct0, q());
        vstd::arithmetic::div_mod::lemma_add_mod_noop(r, z, q());
    }
    lemma_decompose_mod(r + z);
    lemma_decompose_mod(wm);
    lemma_high_bits_stable(wm, d);
    lemma_decompose_mod(wm + d);
    lemma_decompose_mod(w);
}

/// The checks of an accepted attempt carry over to its encoding: the hint
/// encoding is well formed and decodes to the hints, and z is read back
/// within bounds.
#[verifier::spinoff_prover]
proof fn lemma_sig_checks(c_tilde: Seq<u8>, z: Seq<Seq<int>>, wm: Seq<Seq<int>>, ct0: Seq<Seq<int>>, sig: Seq<u8>)
    requires
        response_ok(z, wm, ct0),
        sig == c_tilde + z_bytes(vcentered(z)) + hint_bytes(hint_vector(ct0, wm)),
        sig.len() == 3309,
        z.len() == 5,
    ensures
        sig.subrange(0, 48) == c_tilde,
        hint_encoding_valid(sig_hint_bytes(sig)),
        hint_decode(sig_hint_bytes(sig)) == hint_vector(ct0, wm),
        sig_z(sig) == vcentered(z),
        vnorm_below(sig_z(sig), 524288 - 196),
{
    let h = hint_vector(ct0, wm);
    let zc = vcentered(z);
    assert forall|j: int, c: int| 0 <= j < 5 && 0 <= c < 256 implies
        524288 - 1048576 < #[trigger] zc[j][c] <= 524288 by {
        assert(norm_below(z[j], 524288 - 196));
        assert(abs_spec(centered_spec(z[j][c])) < 524288 - 196);
    }
    lemma_sig_layout(c_tilde, zc, h, sig);
    assert forall|i: int, j: int| 0 <= i < 6 && 0 <= j < 256 implies #[trigger] h[i][j] == 0 || h[i][j] == 1 by {}
    lemma_hint_roundtrip(h);
    assert forall|j: int| 0 <= j < 5 implies #[trigger] norm_below(zc[j], 524288 - 196) by {
        assert(norm_below(z[j], 524288 - 196));
        assert forall|c: int| 0 <= c < 256 implies #[trigger] abs_spec(centered_spec(zc[j][c])) < 524288 - 196 by {
            lemma_centered_idem(z[j][c]);
            assert(abs_spec(centered_spec(z[j][c])) < 524288 - 196);
        }
    }
}

/// UseHint with the signer's hints on w - c*s2 + c*t0 gives the high bits of w
/// when ||c*t0|| < gamma2, the low bits of w - c*s2 are below gamma2 - beta and
/// ||c*s2|| <= beta.
#[verifier::spinoff_prover]
proof fn lemma_use_hints_high(w: Seq<Seq<int>>, cs2: Seq<Seq<int>>, ct0: Seq<Seq<int>>, wa: Seq<Seq<int>>)
    requires
        w.len() == 6,
        ct0.len() == 6,
        cs2.len() == 6,
        vnorm_below(ct0, 261888),
        vnorm_below(vlow(vsub(w, cs2)), 261888 - 196),
        vnorm_below(cs2, 197),
        forall|i: int, c: int| 0 <= i < 6 && 0 <= c < 256 ==>
            #[trigger] wa[i][c] == (vsub(w, cs2)[i][c] + ct0[i][c]) % q(),
    ensures
        use_hints(hint_vector(ct0, vsub(w, cs2)), wa) == vhigh(w),
{
    let wm = vsub(w, cs2);
    let h = hint_vector(ct0, wm);
    assert forall|i: int, c: int| 0 <= i < 6 && 0 <= c < 256 implies
        #[trigger] use_hints(h, wa)[i][c] == vhigh(w)[i][c] by {
        assert(wa[i][c] == (wm[i][c] + ct0[i][c]) % q());
        assert(norm_below(ct0[i], 261888));
        assert(abs_spec(centered_spec(ct0[i][c])) < 261888);
        assert(norm_below(vlow(wm)[i], 261888 - 196));
        assert(abs_spec(centered_spec(vlow(wm)[i][c])) < 261888 - 196);
        assert(norm_below(cs2[i], 197));
        assert(abs_spec(centered_spec(cs2[i][c])) < 197);
        assert(wm[i][c] == (w[i][c] - cs2[i][c]) % q());
        assert(eqm(w[i][c], wm[i][c] + cs2[i][c])) by {
            lemma_eqm_mod(w[i][c] - cs2[i][c]);
            lemma_eqm_add(wm[i][c], w[i][c] - cs2[i][c], cs2[i][c], cs2[i][c]);
        }
        lemma_hint_coefficient(wm[i][c], ct0[i][c], w[i][c], cs2[i][c]);
    }
    assert forall|i: int| 0 <= i < 6 implies #[trigger] use_hints(h, wa)[i] =~= vhigh(w)[i] by {
        assert forall|c: int| 0 <= c < 256 implies use_hints(h, wa)[i][c] == #[trigger] vhigh(w)[i][c] by {}
    }
    assert(use_hints(h, wa) =~= vhigh(w));
}

/// A signature produced by one attempt passes the verifier's checks: its hint
/// encoding is well formed, its z is within bounds, and the verifier recomputes
/// its challenge c~ from the public parts t1 and rho.
#[verifier::spinoff_prover]
#[verifier::rlimit(30)]
proof fn lemma_attempt_verifies(rho: Seq<u8>, s1: Seq<Seq<int>>, s2: Seq<Seq<int>>, t0: Seq<Seq<int>>,
    t1: Seq<Seq<int>>, mu: Seq<u8>, rho_pp: Seq<u8>, kappa: int, sig: Seq<u8>)
    requires
        attempt_with(rho, s1, s2, t0, mu, rho_pp, kappa) == Some(sig),
        sig.len() == 3309,
        s1.len() == 5,
        s2.len() == 6,
        t0.len() == 6,
        t1.len() == 6,
        forall|i: int, c: int| 0 <= i < 6 && 0 <= c < 256 ==> #[trigger] t1[i][c] * 8192 + t0[i][c]
            == vreduce(vadd(vinvntt(matmul_spec(expand_a_spec(rho), vntt(s1))), s2))[i][c],
        challenge_products_small(s2),
    ensures
        hint_encoding_valid(sig_hint_bytes(sig)),
        vnorm_below(sig_z(sig), 524288 - 196),
        shake256_output(mu + w1_bytes(use_hints(hint_decode(sig_hint_bytes(sig)),
            approx_commitment(rho, sig_z(sig), ntt_spec(sample_in_ball_spec(sig.subrange(0, 48))), t1))), 48)
            == sig.subrange(0, 48),
{
    let y = mask_spec(rho_pp, kappa);
    let a = expand_a_spec(rho);
    let w = commitment(a, y);
    let c_tilde = shake256_output(mu + w1_bytes(vhigh(w)), 48);
    let c_hat = ntt_spec(sample_in_ball_spec(c_tilde));
    let z = response_z(y, c_hat, vntt(s1));
    let cs2 = vinvntt(cmul(c_hat, vntt(s2)));
    let wm = response_wm(w, c_hat, vntt(s2));
    let ct0 = response_ct0(c_hat, vntt(t0));
    assert(response_ok(z, wm, ct0) && sig == c_tilde + z_bytes(vcentered(z)) + hint_bytes(hint_vector(ct0, wm))) by {
        reveal(attempt_with);
    }
    assert(wm == vsub(w, cs2));
    lemma_sig_checks(c_tilde, z, wm, ct0, sig);
    assert forall|j: int, c: int| 0 <= j < 5 && 0 <= c < 256 implies #[trigger] eqm(vcentered(z)[j][c], z[j][c]) by {
        lemma_centered_mod(z[j][c]);
    }
    lemma_approx_commitment(rho, s1, s2, t0, t1, y, c_hat, vcentered(z));
    assert(vnorm_below(vinvntt(cmul(ntt_spec(sample_in_ball_spec(c_tilde)), vntt(s2))), 197));
    lemma_use_hints_high(w, cs2, ct0, approx_commitment(rho, vcentered(z), c_hat, t1));
}

/// A product with a polynomial of coefficients in {-1, 0, 1} is bounded by
/// four times the number of its nonzero coefficients when the other factor's
/// coefficients lie in [-4, 4] (Horner's rule from coefficient j on).
#[verifier::spinoff_prover]
proof fn lemma_horner_bound(a: Seq<int>, b: Seq<int>, j: int)
    requires
        0 <= j <= 256,
        forall|i: int| 0 <= i < 256 ==> -1 <= #[trigger] a[i] <= 1,
        forall|i: int| 0 <= i < 256 ==> -4 <= #[trigger] b[i] <= 4,
    ensures
        forall|k: int| 0 <= k < 256 ==> #[trigger] abs_spec(horner(a, b, j)[k])
            <= 4 * (nonzero_count(a, 256) - nonzero_count(a, j)),
    decreases 256 - j,
{
    if j < 256 {
        lemma_horner_bound(a, b, j + 1);
        let h = horner(a, b, j + 1);
        let aj = a[j];
        assert(nonzero_count(a, j + 1) == nonzero_count(a, j) + if aj != 0 { 1int } else { 0int });
        assert forall|k: int| 0 <= k < 256 implies #[trigger] abs_spec(horner(a, b, j)[k])
            <= 4 * (nonzero_count(a, 256) - nonzero_count(a, j)) by {
            let bk = b[k];
            assert(-4 <= bk <= 4);
            assert(abs_spec(mulx(h)[k]) <= 4 * (nonzero_count(a, 256) - nonzero_count(a, j + 1))) by {
                if k == 0 {
                    assert(abs_spec(h[255]) <= 4 * (nonzero_count(a, 256) - nonzero_count(a, j + 1)));
                } else {
                    assert(abs_spec(h[k - 1]) <= 4 * (nonzero_count(a, 256) - nonzero_count(a, j + 1)));
                }
            }
            if aj == 0 {
                assert(aj * bk == 0) by (nonlinear_arith) requires aj == 0;
            } else if aj == 1 {
                assert(aj * bk == bk) by (nonlinear_arith) requires aj == 1;
            } else {
                assert(aj * bk == -bk) by (nonlinear_arith) requires aj == -1;
            }
        }
    }
}

/// Every product of a challenge with an s2 of ExpandS is at most
/// tau * eta = 196 = beta in infinity norm.
#[verifier::spinoff_prover]
pub proof fn lemma_challenge_products_small(rho_prime: Seq<u8>)
    ensures
        challenge_products_small(expand_s2_spec(rho_prime)),
{
    let s2 = expand_s2_spec(rho_prime);
    assert forall|ct: Seq<u8>| #[trigger] vnorm_below(vinvntt(cmul(ntt_spec(sample_in_ball_spec(ct)), vntt(s2))), 197) by {
        let c = sample_in_ball_spec(ct);
        lemma_sample_in_ball_weight(ct);
        let v = vinvntt(cmul(ntt_spec(c), vntt(s2)));
        assert forall|i: int| 0 <= i < v.len() implies #[trigger] norm_below(v[i], 197) by {
            lemma_rej_bounded_range(seed_with_nonce(rho_prime, i + 5));
            lemma_ntt_multiplies(c, s2[i]);
            assert(v[i] == invntt_spec(pointwise_spec(ntt_spec(c), ntt_spec(s2[i]))));
            assert(v[i] == reduce_spec(negacyclic(c, s2[i])));
            lemma_horner_bound(c, s2[i], 0);
            assert(nonzero_count(c, 0) == 0);
            assert forall|k: int| 0 <= k < 256 implies #[trigger] abs_spec(centered_spec(v[i][k])) < 197 by {
                let x = negacyclic(c, s2[i])[k];
                assert(abs_spec(x) <= 196);
                assert(v[i][k] == x % q());
                vstd::arithmetic::div_mod::lemma_mod_twice(x, q());
                assert(centered_spec(x % q()) == centered_spec(x));
                lemma_centered_small(x);
            }
        }
    }
}

/// Signatures verify: every signature that signing produces with a secret key
/// from key generation is accepted by verification under the matching public
/// key, for the same message M'. The hypotheses are the output lengths of the
/// SHAKE256 calls of key generation and the length of the signature.
#[verifier::spinoff_prover]
pub proof fn lemma_sign_then_verify(xi: Seq<u8>, msg: Seq<u8>, rnd: Seq<u8>, sig: Seq<u8>)
    requires
        keygen_expansion(xi).len() == 128,
        shake256_output(keygen_pk(xi), 64).len() == 64,
        sign_spec(keygen_sk(xi), msg, rnd) == Some(sig),
        sig.len() == 3309,
    ensures
        verify_spec(keygen_pk(xi), msg, sig) == Some(true),
{
    let pk = keygen_pk(xi);
    let sk = keygen_sk(xi);
    lemma_keygen_consistent(xi);
    lemma_challenge_products_small(keygen_rho_prime(xi));
    let mu = message_digest(sk_tr(sk), msg);
    let rho_pp = private_seed(sk_key(sk), rnd, mu);
    lemma_sign_loop_is_loop(sk, mu, rho_pp, 0);
    let kappa = lemma_loop_witness(sk_rho(sk), sk_s1(sk), sk_s2(sk), sk_t0(sk), mu, rho_pp, 0, sig);
    let rho = sk_rho(sk);
    let t1 = pk_t1(pk);
    assert forall|i: int, c: int| 0 <= i < 6 && 0 <= c < 256 implies #[trigger] t1[i][c] * 8192 + sk_t0(sk)[i][c]
        == vreduce(vadd(vinvntt(matmul_spec(expand_a_spec(rho), vntt(sk_s1(sk)))), sk_s2(sk)))[i][c] by {
        assert(t1[i][c] * 8192 + sk_t0(sk)[i][c] == keygen_t(xi)[i][c]);
    }
    lemma_attempt_verifies(rho, sk_s1(sk), sk_s2(sk), sk_t0(sk), t1, mu, rho_pp, kappa, sig);
    assert(verify_challenge(pk, msg, sig) == sig.subrange(0, 48));
}

} // verus!

verus! {

// ---------------------------------------------------------------------------
// Laws of the parameters fixed by FIPS 204
// ---------------------------------------------------------------------------

/// Key generation splits the 128-byte expansion H(xi || 0x02 || 0x00, 128)
/// into consecutive parts: rho (32 bytes), rho' (64 bytes) and K (32 bytes),
/// which share no byte and together are the whole expansion.
pub proof fn lemma_keygen_seed_split(xi: Seq<u8>)
    requires
        keygen_expansion(xi).len() == 128,
    ensures
        keygen_rho(xi).len() == 32,
        keygen_rho_prime(xi).len() == 64,
        keygen_key(xi).len() == 32,
        keygen_rho(xi) + keygen_rho_prime(xi) + keygen_key(xi) == keygen_expansion(xi),
        keygen_expansion(xi) == shake256_output(xi + seq![2u8, 0u8], 128),
{
    assert(keygen_rho(xi) + keygen_rho_prime(xi) + keygen_key(xi) =~= keygen_expansion(xi));
}

/// ExpandA (FIPS 204, Algorithm 32): entry (r, s) of the matrix A is
/// RejNTTPoly of the 34 bytes rho || s || r, the column index before the row
/// index, so that swapping the two index bytes gives the transposed entry.
pub proof fn lemma_expand_a_entry(rho: Seq<u8>, r: int, s: int)
    requires
        0 <= r < 6,
        0 <= s < 5,
    ensures
        expand_a_spec(rho).len() == 6,
        expand_a_spec(rho)[r].len() == 5,
        expand_a_spec(rho)[r][s] == padded(accepted_triples(shake128_output(rho + seq![s as u8, r as u8], 1344), 448)),
        r < 5 && s < 5 ==> expand_a_spec(rho)[s][r]
            == padded(accepted_triples(shake128_output(rho + seq![r as u8, s as u8], 1344), 448)),
{
}

/// The message representative mu = H(tr || M', 64) (FIPS 204, Algorithm 7
/// line 6 and Algorithm 8 line 7): SHAKE256 of the 64-byte tr followed by M'.
pub proof fn lemma_message_digest_order(tr: Seq<u8>, msg: Seq<u8>)
    ensures
        message_digest(tr, msg) == shake256_output(tr + msg, 64),
{
}

/// The private seed rho'' = H(K || rnd || mu, 64) (FIPS 204, Algorithm 7 line
/// 7): SHAKE256 of the 32-byte K, then the 32 random bytes, then mu.
pub proof fn lemma_private_seed_order(key: Seq<u8>, rnd: Seq<u8>, mu: Seq<u8>)
    ensures
        private_seed(key, rnd, mu) == shake256_output(key + rnd + mu, 64),
{
}

/// Signing sees the message only through mu = H(tr || M', 64), with tr the
/// bytes 64..128 of the secret key: two messages with the same mu give the same
/// signature (or both none).
pub proof fn lemma_sign_through_mu(sk: Seq<u8>, m1: Seq<u8>, m2: Seq<u8>, rnd: Seq<u8>)
    requires
        shake256_output(sk.subrange(64, 128) + m1, 64) == shake256_output(sk.subrange(64, 128) + m2, 64),
    ensures
        sign_spec(sk, m1, rnd) == sign_spec(sk, m2, rnd),
{
}

/// Verification sees the message only through mu = H(tr || M', 64), with
/// tr = H(pk, 64): two messages with the same mu get the same verdict.
pub proof fn lemma_verify_through_mu(pk: Seq<u8>, m1: Seq<u8>, m2: Seq<u8>, sig: Seq<u8>)
    requires
        shake256_output(shake256_output(pk, 64) + m1, 64) == shake256_output(shake256_output(pk, 64) + m2, 64),
    ensures
        verify_spec(pk, m1, sig) == verify_spec(pk, m2, sig),
{
}

} // verus!
