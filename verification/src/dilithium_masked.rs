//! ML-DSA key generation, signing and verification (FIPS 204, Algorithms 1 to 8).

use vstd::prelude::*;
use crate::constants::{K, L, N, RNDBYTES, SIGNBYTES, SEEDBYTES, PUBLICKEYBYTES, SECRETKEYBYTES, TRBYTES, KEYBYTES, POLYETA_PACKEDBYTES, POLYT0_PACKEDBYTES,
    POLYT1_PACKEDBYTES, POLYZ_PACKEDBYTES, POLYW1_PACKEDBYTES};
use crate::polynomial::{q, Poly, shake256, shake256_2, shake256_3, centered, centered_spec, freeze, make_hint_coeff, make_hint_spec, use_hint_coeff, use_hint_spec, reduce64, shake256_output, pointwise_spec, add_spec, sub_spec, reduce_spec, norm_below,
    power2round_spec, decompose_spec, add_fits, sub_fits};
use crate::sampling::{sample_in_ball, expand_mask_poly, rej_ntt_poly, rej_bounded_poly, rej_ntt_spec, rej_bounded_spec};
use crate::packing::{polyeta_pack, polyeta_unpack, polyeta_unpack_spec, polyeta_pack_spec, eta_pack_ok, eta_digits_fit,
    polyt0_pack, polyt0_unpack, polyt0_pack_spec, polyt0_unpack_spec, t0_pack_ok, polyt1_pack,
    polyt1_unpack, polyt1_pack_spec, polyt1_unpack_spec, polyz_pack, polyz_unpack, polyz_pack_spec,
    polyz_unpack_spec, z_pack_ok, polyw1_pack, polyw1_pack_spec};
use rand_core::RngCore;
use crate::hints::{hint_pack, hint_unpack, hint_listed};
use crate::ntt::{lemma_ntt_input_small, lemma_invntt_input_small, ntt_spec, invntt_spec, ntt_input_ok, invntt_input_ok, all_reduced};
use crate::mldsa_spec::{vec_reduced, pv, mv, dot_upto, matmul_spec, vntt, vinvntt, vreduce, vadd, vsub, cmul,
    vnorm_below, vp2r_high, vp2r_low, vhigh, vlow, expand_a_spec, seed_with_nonce, expand_s1_spec, expand_s2_spec,
    eta_bytes, t0_bytes, t1_bytes, z_bytes, w1_bytes, eta_vec_at, t0_vec_at, t1_vec_at, z_vec_at, lemma_block_index,
    keygen_expansion, keygen_t, keygen_pk, keygen_sk, pk_encode, sk_encode, vcentered, mask_spec, expand_mask_spec,
    commitment, sk_rho, sk_s1, sk_s2, sk_t0, sk_tr, sk_key, response_z, response_wm, response_ct0, response_ok,
    hint_vector, hint_bytes, sign_attempt, attempt_with, sign_loop, sign_spec, message_digest, private_seed, shift_t1, use_hints,
    hint_decode, sig_hint_bytes, verify_challenge, verify_spec, formatted_message, hint_total};

verus! {

/// w = A * v in the NTT domain, reduced modulo q (FIPS 204, Algorithm 48).
pub(crate) fn matrix_mul(a: &[[Poly; L]; K], v: &[Poly; L]) -> (w: [Poly; K])
    ensures
        forall|i: int| 0 <= i < 6 ==> #[trigger] w@[i]@ == matmul_spec(mv(a@), pv(v@))[i],
        pv(w@) == matmul_spec(mv(a@), pv(v@)),
        vec_reduced(w@),
{
    let z = Poly::zero();
    let mut w: [Poly; K] = [z, z, z, z, z, z];
    let mut i: usize = 0;
    while i < K
        invariant
            0 <= i <= 6,
            w@.len() == 6,
            forall|ii: int| 0 <= ii < i ==> #[trigger] w@[ii]@ == matmul_spec(mv(a@), pv(v@))[ii],
            forall|ii: int| 0 <= ii < i ==> #[trigger] all_reduced(w@[ii].coeffs@),
        decreases 6 - i,
    {
        let mut acc = Poly::zero();
        assert(all_reduced(acc.coeffs@));
        let mut j: usize = 0;
        while j < L
            invariant
                0 <= i < 6,
                0 <= j <= 5,
                acc.coeffs@.len() == 256,
                all_reduced(acc.coeffs@),
                forall|c: int| 0 <= c < 256 ==> #[trigger] acc@[c] == dot_upto(pv(a@[i as int]@), pv(v@), c, j as int) % q(),
            decreases 5 - j,
        {
            let p = a[i][j].pointwise_mul(&v[j]);
            proof {
                assert forall|c: int| 0 <= c < 256 implies i32::MIN <= #[trigger] acc@[c] + p@[c] <= i32::MAX by {
                    assert(0 <= acc.coeffs@[c] < q() && 0 <= p.coeffs@[c] < q());
                }
            }
            let next = acc.add(&p);
            proof {
                assert forall|c: int| 0 <= c < 256 implies #[trigger] next@[c]
                    == dot_upto(pv(a@[i as int]@), pv(v@), c, j as int + 1) % q() by {
                    let d = dot_upto(pv(a@[i as int]@), pv(v@), c, j as int);
                    let x = a@[i as int]@[j as int]@[c] * v@[j as int]@[c];
                    assert(p@[c] == x % q());
                    vstd::arithmetic::div_mod::lemma_add_mod_noop(d, x, q());
                    vstd::arithmetic::div_mod::lemma_mod_twice(d, q());
                    vstd::arithmetic::div_mod::lemma_mod_twice(x, q());
                }
            }
            acc = next;
            j += 1;
        }
        w[i] = acc;
        proof {
            assert(acc@ =~= matmul_spec(mv(a@), pv(v@))[i as int]);
        }
        i += 1;
    }
    assert(pv(w@) =~= matmul_spec(mv(a@), pv(v@)));
    w
}

} // verus!

verus! {

pub(crate) fn veck_add(a: &[Poly; K], b: &[Poly; K]) -> (r: [Poly; K])
    requires
        forall|i: int| 0 <= i < 6 ==> #[trigger] add_fits(a@[i]@, b@[i]@),
    ensures
        forall|i: int| 0 <= i < 6 ==> #[trigger] r@[i]@ == add_spec(a@[i]@, b@[i]@),
        pv(r@) == vadd(pv(a@), pv(b@)),
        vec_reduced(r@),
{
    let z = Poly::zero();
    let mut r: [Poly; K] = [z, z, z, z, z, z];
    let mut i: usize = 0;
    while i < K
        invariant
            0 <= i <= 6,
            r@.len() == 6,
            forall|ii: int| 0 <= ii < 6 ==> #[trigger] add_fits(a@[ii]@, b@[ii]@),
            forall|ii: int| 0 <= ii < i ==> #[trigger] r@[ii]@ == add_spec(a@[ii]@, b@[ii]@),
            forall|ii: int| 0 <= ii < i ==> #[trigger] all_reduced(r@[ii].coeffs@),
        decreases 6 - i,
    {
        assert(add_fits(a@[i as int]@, b@[i as int]@));
        r[i] = a[i].add(&b[i]);
        i += 1;
    }
    assert(pv(r@) =~= vadd(pv(a@), pv(b@)));
    r
}

fn veck_sub(a: &[Poly; K], b: &[Poly; K]) -> (r: [Poly; K])
    requires
        forall|i: int| 0 <= i < 6 ==> #[trigger] sub_fits(a@[i]@, b@[i]@),
    ensures
        forall|i: int| 0 <= i < 6 ==> #[trigger] r@[i]@ == sub_spec(a@[i]@, b@[i]@),
        pv(r@) == vsub(pv(a@), pv(b@)),
        vec_reduced(r@),
{
    let z = Poly::zero();
    let mut r: [Poly; K] = [z, z, z, z, z, z];
    let mut i: usize = 0;
    while i < K
        invariant
            0 <= i <= 6,
            r@.len() == 6,
            forall|ii: int| 0 <= ii < 6 ==> #[trigger] sub_fits(a@[ii]@, b@[ii]@),
            forall|ii: int| 0 <= ii < i ==> #[trigger] r@[ii]@ == sub_spec(a@[ii]@, b@[ii]@),
            forall|ii: int| 0 <= ii < i ==> #[trigger] all_reduced(r@[ii].coeffs@),
        decreases 6 - i,
    {
        assert(sub_fits(a@[i as int]@, b@[i as int]@));
        r[i] = a[i].sub(&b[i]);
        i += 1;
    }
    assert(pv(r@) =~= vsub(pv(a@), pv(b@)));
    r
}

fn veck_ntt(v: &mut [Poly; K])
    requires
        forall|i: int| 0 <= i < 6 ==> #[trigger] ntt_input_ok(old(v)@[i].coeffs@),
    ensures
        forall|i: int| 0 <= i < 6 ==> #[trigger] final(v)@[i]@ == ntt_spec(old(v)@[i]@),
        pv(final(v)@) == vntt(pv(old(v)@)),
        vec_reduced(final(v)@),
{
    let ghost v0 = v@;
    let mut i: usize = 0;
    while i < K
        invariant
            0 <= i <= 6,
            v@.len() == 6,
            v0.len() == 6,
            v0 == old(v)@,
            forall|ii: int| 0 <= ii < 6 ==> #[trigger] ntt_input_ok(v0[ii].coeffs@),
            forall|ii: int| 0 <= ii < i ==> #[trigger] v@[ii]@ == ntt_spec(v0[ii]@),
            forall|ii: int| 0 <= ii < i ==> #[trigger] all_reduced(v@[ii].coeffs@),
            forall|ii: int| i <= ii < 6 ==> #[trigger] v@[ii] == v0[ii],
        decreases 6 - i,
    {
        let mut p = v[i];
        assert(ntt_input_ok(v0[i as int].coeffs@));
        p.ntt();
        v[i] = p;
        i += 1;
    }
    assert(pv(v@) =~= vntt(pv(v0)));
}

pub(crate) fn veck_invntt(v: &mut [Poly; K])
    requires
        forall|i: int| 0 <= i < 6 ==> #[trigger] invntt_input_ok(old(v)@[i].coeffs@),
    ensures
        forall|i: int| 0 <= i < 6 ==> #[trigger] final(v)@[i]@ == invntt_spec(old(v)@[i]@),
        pv(final(v)@) == vinvntt(pv(old(v)@)),
        vec_reduced(final(v)@),
{
    let ghost v0 = v@;
    let mut i: usize = 0;
    while i < K
        invariant
            0 <= i <= 6,
            v@.len() == 6,
            v0.len() == 6,
            v0 == old(v)@,
            forall|ii: int| 0 <= ii < 6 ==> #[trigger] invntt_input_ok(v0[ii].coeffs@),
            forall|ii: int| 0 <= ii < i ==> #[trigger] v@[ii]@ == invntt_spec(v0[ii]@),
            forall|ii: int| 0 <= ii < i ==> #[trigger] all_reduced(v@[ii].coeffs@),
            forall|ii: int| i <= ii < 6 ==> #[trigger] v@[ii] == v0[ii],
        decreases 6 - i,
    {
        let mut p = v[i];
        assert(invntt_input_ok(v0[i as int].coeffs@));
        p.invntt();
        v[i] = p;
        i += 1;
    }
    assert(pv(v@) =~= vinvntt(pv(v0)));
}

pub(crate) fn vecl_ntt(v: &mut [Poly; L])
    requires
        forall|i: int| 0 <= i < 5 ==> #[trigger] ntt_input_ok(old(v)@[i].coeffs@),
    ensures
        forall|i: int| 0 <= i < 5 ==> #[trigger] final(v)@[i]@ == ntt_spec(old(v)@[i]@),
        pv(final(v)@) == vntt(pv(old(v)@)),
        vec_reduced(final(v)@),
{
    let ghost v0 = v@;
    let mut i: usize = 0;
    while i < L
        invariant
            0 <= i <= 5,
            v@.len() == 5,
            v0.len() == 5,
            v0 == old(v)@,
            forall|ii: int| 0 <= ii < 5 ==> #[trigger] ntt_input_ok(v0[ii].coeffs@),
            forall|ii: int| 0 <= ii < i ==> #[trigger] v@[ii]@ == ntt_spec(v0[ii]@),
            forall|ii: int| 0 <= ii < i ==> #[trigger] all_reduced(v@[ii].coeffs@),
            forall|ii: int| i <= ii < 5 ==> #[trigger] v@[ii] == v0[ii],
        decreases 5 - i,
    {
        let mut p = v[i];
        assert(ntt_input_ok(v0[i as int].coeffs@));
        p.ntt();
        v[i] = p;
        i += 1;
    }
    assert(pv(v@) =~= vntt(pv(v0)));
}

fn vecl_invntt(v: &mut [Poly; L])
    requires
        forall|i: int| 0 <= i < 5 ==> #[trigger] invntt_input_ok(old(v)@[i].coeffs@),
    ensures
        forall|i: int| 0 <= i < 5 ==> #[trigger] final(v)@[i]@ == invntt_spec(old(v)@[i]@),
        pv(final(v)@) == vinvntt(pv(old(v)@)),
        vec_reduced(final(v)@),
{
    let ghost v0 = v@;
    let mut i: usize = 0;
    while i < L
        invariant
            0 <= i <= 5,
            v@.len() == 5,
            v0.len() == 5,
            v0 == old(v)@,
            forall|ii: int| 0 <= ii < 5 ==> #[trigger] invntt_input_ok(v0[ii].coeffs@),
            forall|ii: int| 0 <= ii < i ==> #[trigger] v@[ii]@ == invntt_spec(v0[ii]@),
            forall|ii: int| 0 <= ii < i ==> #[trigger] all_reduced(v@[ii].coeffs@),
            forall|ii: int| i <= ii < 5 ==> #[trigger] v@[ii] == v0[ii],
        decreases 5 - i,
    {
        let mut p = v[i];
        assert(invntt_input_ok(v0[i as int].coeffs@));
        p.invntt();
        v[i] = p;
        i += 1;
    }
    assert(pv(v@) =~= vinvntt(pv(v0)));
}

fn c_mul_vecl(c: &Poly, v: &[Poly; L]) -> (r: [Poly; L])
    ensures
        forall|i: int| 0 <= i < 5 ==> #[trigger] r@[i]@ == pointwise_spec(c@, v@[i]@),
        pv(r@) == cmul(c@, pv(v@)),
        vec_reduced(r@),
{
    let z = Poly::zero();
    let mut r: [Poly; L] = [z, z, z, z, z];
    let mut i: usize = 0;
    while i < L
        invariant
            0 <= i <= 5,
            r@.len() == 5,
            forall|ii: int| 0 <= ii < i ==> #[trigger] r@[ii]@ == pointwise_spec(c@, v@[ii]@),
            forall|ii: int| 0 <= ii < i ==> #[trigger] all_reduced(r@[ii].coeffs@),
        decreases 5 - i,
    {
        r[i] = c.pointwise_mul(&v[i]);
        i += 1;
    }
    assert(pv(r@) =~= cmul(c@, pv(v@)));
    r
}

fn c_mul_veck(c: &Poly, v: &[Poly; K]) -> (r: [Poly; K])
    ensures
        forall|i: int| 0 <= i < 6 ==> #[trigger] r@[i]@ == pointwise_spec(c@, v@[i]@),
        pv(r@) == cmul(c@, pv(v@)),
        vec_reduced(r@),
{
    let z = Poly::zero();
    let mut r: [Poly; K] = [z, z, z, z, z, z];
    let mut i: usize = 0;
    while i < K
        invariant
            0 <= i <= 6,
            r@.len() == 6,
            forall|ii: int| 0 <= ii < i ==> #[trigger] r@[ii]@ == pointwise_spec(c@, v@[ii]@),
            forall|ii: int| 0 <= ii < i ==> #[trigger] all_reduced(r@[ii].coeffs@),
        decreases 6 - i,
    {
        r[i] = c.pointwise_mul(&v[i]);
        i += 1;
    }
    assert(pv(r@) =~= cmul(c@, pv(v@)));
    r
}

fn chknorm_vecl(v: &[Poly; L], b: i32) -> (ok: bool)
    ensures
        ok == forall|i: int| 0 <= i < 5 ==> #[trigger] norm_below(v@[i]@, b as int),
        ok == vnorm_below(pv(v@), b as int),
{
    let mut i: usize = 0;
    while i < L
        invariant
            0 <= i <= 5,
            forall|ii: int| 0 <= ii < i ==> #[trigger] norm_below(v@[ii]@, b as int),
        decreases 5 - i,
    {
        if !v[i].chknorm(b) {
            assert(pv(v@)[i as int] == v@[i as int]@);
            return false;
        }
        i += 1;
    }
    true
}

pub(crate) fn chknorm_veck(v: &[Poly; K], b: i32) -> (ok: bool)
    ensures
        ok == forall|i: int| 0 <= i < 6 ==> #[trigger] norm_below(v@[i]@, b as int),
        ok == vnorm_below(pv(v@), b as int),
{
    let mut i: usize = 0;
    while i < K
        invariant
            0 <= i <= 6,
            forall|ii: int| 0 <= ii < i ==> #[trigger] norm_below(v@[ii]@, b as int),
        decreases 6 - i,
    {
        if !v[i].chknorm(b) {
            assert(pv(v@)[i as int] == v@[i as int]@);
            return false;
        }
        i += 1;
    }
    true
}

#[verifier::spinoff_prover]
fn veck_power2round(t: &[Poly; K]) -> (res: ([Poly; K], [Poly; K]))
    ensures
        forall|i: int, c: int| 0 <= i < 6 && 0 <= c < 256 ==>
            #[trigger] res.0@[i]@[c] == power2round_spec(t@[i]@[c]).0
            && res.1@[i]@[c] == power2round_spec(t@[i]@[c]).1,
        pv(res.0@) == vp2r_high(pv(t@)),
        pv(res.1@) == vp2r_low(pv(t@)),
{
    let z = Poly::zero();
    let mut t1: [Poly; K] = [z, z, z, z, z, z];
    let mut t0: [Poly; K] = [z, z, z, z, z, z];
    let mut i: usize = 0;
    while i < K
        invariant
            0 <= i <= 6,
            t1@.len() == 6,
            t0@.len() == 6,
            forall|ii: int, c: int| 0 <= ii < i && 0 <= c < 256 ==>
                #[trigger] t1@[ii]@[c] == power2round_spec(t@[ii]@[c]).0
                && t0@[ii]@[c] == power2round_spec(t@[ii]@[c]).1,
        decreases 6 - i,
    {
        let (h, l) = t[i].power2round();
        t1[i] = h;
        t0[i] = l;
        proof {
            assert forall|ii: int, c: int| 0 <= ii < i + 1 && 0 <= c < 256 implies
                #[trigger] t1@[ii]@[c] == power2round_spec(t@[ii]@[c]).0
                && t0@[ii]@[c] == power2round_spec(t@[ii]@[c]).1 by {
                if ii == i as int {
                    assert(t1@[ii] == h && t0@[ii] == l);
                }
            }
        }
        i += 1;
    }
    assert(pv(t1@) =~= vp2r_high(pv(t@))) by {
        assert forall|ii: int| 0 <= ii < 6 implies #[trigger] pv(t1@)[ii] =~= vp2r_high(pv(t@))[ii] by {
            assert forall|c: int| 0 <= c < 256 implies #[trigger] pv(t1@)[ii][c] == vp2r_high(pv(t@))[ii][c] by {
                assert(t1@[ii]@[c] == power2round_spec(t@[ii]@[c]).0);
            }
        }
    }
    assert(pv(t0@) =~= vp2r_low(pv(t@))) by {
        assert forall|ii: int| 0 <= ii < 6 implies #[trigger] pv(t0@)[ii] =~= vp2r_low(pv(t@))[ii] by {
            assert forall|c: int| 0 <= c < 256 implies #[trigger] pv(t0@)[ii][c] == vp2r_low(pv(t@))[ii][c] by {
                assert(t1@[ii]@[c] == power2round_spec(t@[ii]@[c]).0);
            }
        }
    }
    (t1, t0)
}

#[verifier::spinoff_prover]
fn veck_decompose(w: &[Poly; K]) -> (res: ([Poly; K], [Poly; K]))
    ensures
        forall|i: int, c: int| 0 <= i < 6 && 0 <= c < 256 ==>
            #[trigger] res.0@[i]@[c] == decompose_spec(w@[i]@[c]).0
            && res.1@[i]@[c] == decompose_spec(w@[i]@[c]).1,
        pv(res.0@) == vhigh(pv(w@)),
        pv(res.1@) == vlow(pv(w@)),
{
    let z = Poly::zero();
    let mut w1: [Poly; K] = [z, z, z, z, z, z];
    let mut w0: [Poly; K] = [z, z, z, z, z, z];
    let mut i: usize = 0;
    while i < K
        invariant
            0 <= i <= 6,
            w1@.len() == 6,
            w0@.len() == 6,
            forall|ii: int, c: int| 0 <= ii < i && 0 <= c < 256 ==>
                #[trigger] w1@[ii]@[c] == decompose_spec(w@[ii]@[c]).0
                && w0@[ii]@[c] == decompose_spec(w@[ii]@[c]).1,
        decreases 6 - i,
    {
        let (h, l) = w[i].decompose();
        w1[i] = h;
        w0[i] = l;
        proof {
            assert forall|ii: int, c: int| 0 <= ii < i + 1 && 0 <= c < 256 implies
                #[trigger] w1@[ii]@[c] == decompose_spec(w@[ii]@[c]).0
                && w0@[ii]@[c] == decompose_spec(w@[ii]@[c]).1 by {
                if ii == i as int {
                    assert(w1@[ii] == h && w0@[ii] == l);
                }
            }
        }
        i += 1;
    }
    assert(pv(w1@) =~= vhigh(pv(w@))) by {
        assert forall|ii: int| 0 <= ii < 6 implies #[trigger] pv(w1@)[ii] =~= vhigh(pv(w@))[ii] by {
            assert forall|c: int| 0 <= c < 256 implies #[trigger] pv(w1@)[ii][c] == vhigh(pv(w@))[ii][c] by {
                assert(w1@[ii]@[c] == decompose_spec(w@[ii]@[c]).0);
            }
        }
    }
    assert(pv(w0@) =~= vlow(pv(w@))) by {
        assert forall|ii: int| 0 <= ii < 6 implies #[trigger] pv(w0@)[ii] =~= vlow(pv(w@))[ii] by {
            assert forall|c: int| 0 <= c < 256 implies #[trigger] pv(w0@)[ii][c] == vlow(pv(w@))[ii][c] by {
                assert(w1@[ii]@[c] == decompose_spec(w@[ii]@[c]).0);
            }
        }
    }
    (w1, w0)
}

pub(crate) fn veck_reduce(v: &mut [Poly; K])
    ensures
        forall|i: int| 0 <= i < 6 ==> #[trigger] final(v)@[i]@ == reduce_spec(old(v)@[i]@),
        pv(final(v)@) == vreduce(pv(old(v)@)),
        vec_reduced(final(v)@),
{
    let ghost v0 = v@;
    let mut i: usize = 0;
    while i < K
        invariant
            0 <= i <= 6,
            v@.len() == 6,
            v0.len() == 6,
            v0 == old(v)@,
            forall|ii: int| 0 <= ii < i ==> #[trigger] v@[ii]@ == reduce_spec(v0[ii]@),
            forall|ii: int| 0 <= ii < i ==> #[trigger] all_reduced(v@[ii].coeffs@),
            forall|ii: int| i <= ii < 6 ==> #[trigger] v@[ii] == v0[ii],
        decreases 6 - i,
    {
        let mut p = v[i];
        p.reduce();
        v[i] = p;
        i += 1;
    }
    assert(pv(v@) =~= vreduce(pv(v0)));
}

} // verus!

verus! {

fn pack_s1(v: &[Poly; 5]) -> (b: [u8; 640])
    requires
        forall|i: int| 0 <= i < 5 ==> #[trigger] eta_digits_fit(v@[i]@),
    ensures
        b@ == eta_bytes(pv(v@), 5),
{
    let mut b = [0u8; 640];
    let mut i: usize = 0;
    while i < 5
        invariant
            0 <= i <= 5,
            b@.len() == 640,
            forall|ii: int| 0 <= ii < 5 ==> #[trigger] eta_digits_fit(v@[ii]@),
            forall|ii: int, n: int| 0 <= ii < i && 0 <= n < 128 ==>
                #[trigger] b@[128 * ii + n] == polyeta_pack_spec(v@[ii]@)[n],
        decreases 5 - i,
    {
        let mut t = [0u8; 128];
        assert(eta_digits_fit(v@[i as int]@));
        assert(eta_pack_ok(v@[i as int]@));
        polyeta_pack(&mut t, &v[i]);
        let mut k: usize = 0;
        while k < 128
            invariant
                0 <= i < 5,
                0 <= k <= 128,
                b@.len() == 640,
                t@ == polyeta_pack_spec(v@[i as int]@),
                forall|ii: int, n: int| 0 <= ii < i && 0 <= n < 128 ==>
                    #[trigger] b@[128 * ii + n] == polyeta_pack_spec(v@[ii]@)[n],
                forall|n: int| 0 <= n < k ==> #[trigger] b@[128 * i + n] == t@[n],
            decreases 128 - k,
        {
            b[128 * i + k] = t[k];
            proof {
                assert forall|ii: int, n: int| 0 <= ii < i && 0 <= n < 128 implies
                    #[trigger] b@[128 * ii + n] == polyeta_pack_spec(v@[ii]@)[n] by {
                    assert(128 * ii + n < 128 * i);
                }
            }
            k += 1;
        }
        proof {
            assert forall|ii: int, n: int| 0 <= ii < i + 1 && 0 <= n < 128 implies
                #[trigger] b@[128 * ii + n] == polyeta_pack_spec(v@[ii]@)[n] by {
                if ii == i as int {
                    assert(b@[128 * i + n] == t@[n]);
                }
            }
        }
        i += 1;
    }
    assert forall|k: int| 0 <= k < 640 implies #[trigger] b@[k] == eta_bytes(pv(v@), 5)[k] by {
        lemma_block_index(k, 128);
        assert(b@[128 * (k / 128) + k % 128] == polyeta_pack_spec(v@[k / 128]@)[k % 128]);
    }
    assert(b@ =~= eta_bytes(pv(v@), 5));
    b
}

pub(crate) fn unpack_s1(buf: &[u8], off: usize) -> (v: [Poly; 5])
    requires
        off + 640 <= buf@.len(),
    ensures
        forall|i: int, c: int| 0 <= i < 5 && 0 <= c < 256 ==> -11 <= #[trigger] v@[i]@[c] <= 4,
        pv(v@) == eta_vec_at(buf@, off as int, 5),
{
    let blen = buf.len();
    let z = Poly::zero();
    let mut v: [Poly; 5] = [z, z, z, z, z];
    let mut i: usize = 0;
    while i < 5
        invariant
            0 <= i <= 5,
            v@.len() == 5,
            off + 640 <= buf@.len(),
            blen == buf@.len(),
            forall|ii: int, c: int| 0 <= ii < i && 0 <= c < 256 ==> -11 <= #[trigger] v@[ii]@[c] <= 4,
            forall|ii: int| 0 <= ii < i ==> #[trigger] v@[ii]@
                == polyeta_unpack_spec(buf@.subrange(off + 128 * ii, off + 128 * ii + 128)),
        decreases 5 - i,
    {
        let mut t = [0u8; 128];
        let mut k: usize = 0;
        while k < 128
            invariant
                0 <= i < 5,
                0 <= k <= 128,
                off + 640 <= buf@.len(),
                blen == buf@.len(),
            blen == buf@.len(),
                t@.len() == 128,
                forall|n: int| 0 <= n < k ==> #[trigger] t@[n] == buf@[off + 128 * i + n],
            decreases 128 - k,
        {
            t[k] = buf[off + 128 * i + k];
            k += 1;
        }
        assert(t@ =~= buf@.subrange(off + 128 * i as int, off + 128 * i as int + 128));
        v[i] = polyeta_unpack(&t);
        i += 1;
    }
    assert(pv(v@) =~= eta_vec_at(buf@, off as int, 5));
    v
}

fn pack_s2(v: &[Poly; 6]) -> (b: [u8; 768])
    requires
        forall|i: int| 0 <= i < 6 ==> #[trigger] eta_digits_fit(v@[i]@),
    ensures
        b@ == eta_bytes(pv(v@), 6),
{
    let mut b = [0u8; 768];
    let mut i: usize = 0;
    while i < 6
        invariant
            0 <= i <= 6,
            b@.len() == 768,
            forall|ii: int| 0 <= ii < 6 ==> #[trigger] eta_digits_fit(v@[ii]@),
            forall|ii: int, n: int| 0 <= ii < i && 0 <= n < 128 ==>
                #[trigger] b@[128 * ii + n] == polyeta_pack_spec(v@[ii]@)[n],
        decreases 6 - i,
    {
        let mut t = [0u8; 128];
        assert(eta_digits_fit(v@[i as int]@));
        assert(eta_pack_ok(v@[i as int]@));
        polyeta_pack(&mut t, &v[i]);
        let mut k: usize = 0;
        while k < 128
            invariant
                0 <= i < 6,
                0 <= k <= 128,
                b@.len() == 768,
                t@ == polyeta_pack_spec(v@[i as int]@),
                forall|ii: int, n: int| 0 <= ii < i && 0 <= n < 128 ==>
                    #[trigger] b@[128 * ii + n] == polyeta_pack_spec(v@[ii]@)[n],
                forall|n: int| 0 <= n < k ==> #[trigger] b@[128 * i + n] == t@[n],
            decreases 128 - k,
        {
            b[128 * i + k] = t[k];
            proof {
                assert forall|ii: int, n: int| 0 <= ii < i && 0 <= n < 128 implies
                    #[trigger] b@[128 * ii + n] == polyeta_pack_spec(v@[ii]@)[n] by {
                    assert(128 * ii + n < 128 * i);
                }
            }
            k += 1;
        }
        proof {
            assert forall|ii: int, n: int| 0 <= ii < i + 1 && 0 <= n < 128 implies
                #[trigger] b@[128 * ii + n] == polyeta_pack_spec(v@[ii]@)[n] by {
                if ii == i as int {
                    assert(b@[128 * i + n] == t@[n]);
                }
            }
        }
        i += 1;
    }
    assert forall|k: int| 0 <= k < 768 implies #[trigger] b@[k] == eta_bytes(pv(v@), 6)[k] by {
        lemma_block_index(k, 128);
        assert(b@[128 * (k / 128) + k % 128] == polyeta_pack_spec(v@[k / 128]@)[k % 128]);
    }
    assert(b@ =~= eta_bytes(pv(v@), 6));
    b
}

pub(crate) fn unpack_s2(buf: &[u8], off: usize) -> (v: [Poly; 6])
    requires
        off + 768 <= buf@.len(),
    ensures
        forall|i: int, c: int| 0 <= i < 6 && 0 <= c < 256 ==> -11 <= #[trigger] v@[i]@[c] <= 4,
        pv(v@) == eta_vec_at(buf@, off as int, 6),
{
    let blen = buf.len();
    let z = Poly::zero();
    let mut v: [Poly; 6] = [z, z, z, z, z, z];
    let mut i: usize = 0;
    while i < 6
        invariant
            0 <= i <= 6,
            v@.len() == 6,
            off + 768 <= buf@.len(),
            blen == buf@.len(),
            forall|ii: int, c: int| 0 <= ii < i && 0 <= c < 256 ==> -11 <= #[trigger] v@[ii]@[c] <= 4,
            forall|ii: int| 0 <= ii < i ==> #[trigger] v@[ii]@
                == polyeta_unpack_spec(buf@.subrange(off + 128 * ii, off + 128 * ii + 128)),
        decreases 6 - i,
    {
        let mut t = [0u8; 128];
        let mut k: usize = 0;
        while k < 128
            invariant
                0 <= i < 6,
                0 <= k <= 128,
                off + 768 <= buf@.len(),
                blen == buf@.len(),
            blen == buf@.len(),
                t@.len() == 128,
                forall|n: int| 0 <= n < k ==> #[trigger] t@[n] == buf@[off + 128 * i + n],
            decreases 128 - k,
        {
            t[k] = buf[off + 128 * i + k];
            k += 1;
        }
        assert(t@ =~= buf@.subrange(off + 128 * i as int, off + 128 * i as int + 128));
        v[i] = polyeta_unpack(&t);
        i += 1;
    }
    assert(pv(v@) =~= eta_vec_at(buf@, off as int, 6));
    v
}

fn pack_t0(v: &[Poly; 6]) -> (b: [u8; 2496])
    requires
        forall|i: int| 0 <= i < 6 ==> #[trigger] t0_pack_ok(v@[i]@),
    ensures
        b@ == t0_bytes(pv(v@)),
{
    let mut b = [0u8; 2496];
    let mut i: usize = 0;
    while i < 6
        invariant
            0 <= i <= 6,
            b@.len() == 2496,
            forall|ii: int| 0 <= ii < 6 ==> #[trigger] t0_pack_ok(v@[ii]@),
            forall|ii: int, n: int| 0 <= ii < i && 0 <= n < 416 ==>
                #[trigger] b@[416 * ii + n] == polyt0_pack_spec(v@[ii]@)[n],
        decreases 6 - i,
    {
        let mut t = [0u8; 416];
        assert(t0_pack_ok(v@[i as int]@));
        polyt0_pack(&mut t, &v[i]);
        let mut k: usize = 0;
        while k < 416
            invariant
                0 <= i < 6,
                0 <= k <= 416,
                b@.len() == 2496,
                t@ == polyt0_pack_spec(v@[i as int]@),
                forall|ii: int, n: int| 0 <= ii < i && 0 <= n < 416 ==>
                    #[trigger] b@[416 * ii + n] == polyt0_pack_spec(v@[ii]@)[n],
                forall|n: int| 0 <= n < k ==> #[trigger] b@[416 * i + n] == t@[n],
            decreases 416 - k,
        {
            b[416 * i + k] = t[k];
            proof {
                assert forall|ii: int, n: int| 0 <= ii < i && 0 <= n < 416 implies
                    #[trigger] b@[416 * ii + n] == polyt0_pack_spec(v@[ii]@)[n] by {
                    assert(416 * ii + n < 416 * i);
                }
            }
            k += 1;
        }
        proof {
            assert forall|ii: int, n: int| 0 <= ii < i + 1 && 0 <= n < 416 implies
                #[trigger] b@[416 * ii + n] == polyt0_pack_spec(v@[ii]@)[n] by {
                if ii == i as int {
                    assert(b@[416 * i + n] == t@[n]);
                }
            }
        }
        i += 1;
    }
    assert forall|k: int| 0 <= k < 2496 implies #[trigger] b@[k] == t0_bytes(pv(v@))[k] by {
        lemma_block_index(k, 416);
        assert(b@[416 * (k / 416) + k % 416] == polyt0_pack_spec(v@[k / 416]@)[k % 416]);
    }
    assert(b@ =~= t0_bytes(pv(v@)));
    b
}

pub(crate) fn unpack_t0(buf: &[u8], off: usize) -> (v: [Poly; 6])
    requires
        off + 2496 <= buf@.len(),
    ensures
        forall|i: int, c: int| 0 <= i < 6 && 0 <= c < 256 ==> -4095 <= #[trigger] v@[i]@[c] <= 4096,
        pv(v@) == t0_vec_at(buf@, off as int),
{
    let blen = buf.len();
    let z = Poly::zero();
    let mut v: [Poly; 6] = [z, z, z, z, z, z];
    let mut i: usize = 0;
    while i < 6
        invariant
            0 <= i <= 6,
            v@.len() == 6,
            off + 2496 <= buf@.len(),
            blen == buf@.len(),
            forall|ii: int, c: int| 0 <= ii < i && 0 <= c < 256 ==> -4095 <= #[trigger] v@[ii]@[c] <= 4096,
            forall|ii: int| 0 <= ii < i ==> #[trigger] v@[ii]@
                == polyt0_unpack_spec(buf@.subrange(off + 416 * ii, off + 416 * ii + 416)),
        decreases 6 - i,
    {
        let mut t = [0u8; 416];
        let mut k: usize = 0;
        while k < 416
            invariant
                0 <= i < 6,
                0 <= k <= 416,
                off + 2496 <= buf@.len(),
                blen == buf@.len(),
            blen == buf@.len(),
                t@.len() == 416,
                forall|n: int| 0 <= n < k ==> #[trigger] t@[n] == buf@[off + 416 * i + n],
            decreases 416 - k,
        {
            t[k] = buf[off + 416 * i + k];
            k += 1;
        }
        assert(t@ =~= buf@.subrange(off + 416 * i as int, off + 416 * i as int + 416));
        v[i] = polyt0_unpack(&t);
        i += 1;
    }
    assert(pv(v@) =~= t0_vec_at(buf@, off as int));
    v
}

fn pack_t1(v: &[Poly; 6]) -> (b: [u8; 1920])
    ensures
        b@ == t1_bytes(pv(v@)),
{
    let mut b = [0u8; 1920];
    let mut i: usize = 0;
    while i < 6
        invariant
            0 <= i <= 6,
            b@.len() == 1920,
            forall|ii: int, n: int| 0 <= ii < i && 0 <= n < 320 ==>
                #[trigger] b@[320 * ii + n] == polyt1_pack_spec(v@[ii]@)[n],
        decreases 6 - i,
    {
        let mut t = [0u8; 320];
        polyt1_pack(&mut t, &v[i]);
        let mut k: usize = 0;
        while k < 320
            invariant
                0 <= i < 6,
                0 <= k <= 320,
                b@.len() == 1920,
                t@ == polyt1_pack_spec(v@[i as int]@),
                forall|ii: int, n: int| 0 <= ii < i && 0 <= n < 320 ==>
                    #[trigger] b@[320 * ii + n] == polyt1_pack_spec(v@[ii]@)[n],
                forall|n: int| 0 <= n < k ==> #[trigger] b@[320 * i + n] == t@[n],
            decreases 320 - k,
        {
            b[320 * i + k] = t[k];
            proof {
                assert forall|ii: int, n: int| 0 <= ii < i && 0 <= n < 320 implies
                    #[trigger] b@[320 * ii + n] == polyt1_pack_spec(v@[ii]@)[n] by {
                    assert(320 * ii + n < 320 * i);
                }
            }
            k += 1;
        }
        proof {
            assert forall|ii: int, n: int| 0 <= ii < i + 1 && 0 <= n < 320 implies
                #[trigger] b@[320 * ii + n] == polyt1_pack_spec(v@[ii]@)[n] by {
                if ii == i as int {
                    assert(b@[320 * i + n] == t@[n]);
                }
            }
        }
        i += 1;
    }
    assert forall|k: int| 0 <= k < 1920 implies #[trigger] b@[k] == t1_bytes(pv(v@))[k] by {
        lemma_block_index(k, 320);
        assert(b@[320 * (k / 320) + k % 320] == polyt1_pack_spec(v@[k / 320]@)[k % 320]);
    }
    assert(b@ =~= t1_bytes(pv(v@)));
    b
}

pub(crate) fn unpack_t1(buf: &[u8], off: usize) -> (v: [Poly; 6])
    requires
        off + 1920 <= buf@.len(),
    ensures
        forall|i: int, c: int| 0 <= i < 6 && 0 <= c < 256 ==> 0 <= #[trigger] v@[i]@[c] <= 1023,
        pv(v@) == t1_vec_at(buf@, off as int),
{
    let blen = buf.len();
    let z = Poly::zero();
    let mut v: [Poly; 6] = [z, z, z, z, z, z];
    let mut i: usize = 0;
    while i < 6
        invariant
            0 <= i <= 6,
            v@.len() == 6,
            off + 1920 <= buf@.len(),
            blen == buf@.len(),
            forall|ii: int, c: int| 0 <= ii < i && 0 <= c < 256 ==> 0 <= #[trigger] v@[ii]@[c] <= 1023,
            forall|ii: int| 0 <= ii < i ==> #[trigger] v@[ii]@
                == polyt1_unpack_spec(buf@.subrange(off + 320 * ii, off + 320 * ii + 320)),
        decreases 6 - i,
    {
        let mut t = [0u8; 320];
        let mut k: usize = 0;
        while k < 320
            invariant
                0 <= i < 6,
                0 <= k <= 320,
                off + 1920 <= buf@.len(),
                blen == buf@.len(),
            blen == buf@.len(),
                t@.len() == 320,
                forall|n: int| 0 <= n < k ==> #[trigger] t@[n] == buf@[off + 320 * i + n],
            decreases 320 - k,
        {
            t[k] = buf[off + 320 * i + k];
            k += 1;
        }
        assert(t@ =~= buf@.subrange(off + 320 * i as int, off + 320 * i as int + 320));
        v[i] = polyt1_unpack(&t);
        i += 1;
    }
    assert(pv(v@) =~= t1_vec_at(buf@, off as int));
    v
}

pub(crate) fn pack_z(v: &[Poly; 5]) -> (b: [u8; 3200])
    requires
        forall|i: int| 0 <= i < 5 ==> #[trigger] z_pack_ok(v@[i]@),
    ensures
        b@ == z_bytes(pv(v@)),
{
    let mut b = [0u8; 3200];
    let mut i: usize = 0;
    while i < 5
        invariant
            0 <= i <= 5,
            b@.len() == 3200,
            forall|ii: int| 0 <= ii < 5 ==> #[trigger] z_pack_ok(v@[ii]@),
            forall|ii: int, n: int| 0 <= ii < i && 0 <= n < 640 ==>
                #[trigger] b@[640 * ii + n] == polyz_pack_spec(v@[ii]@)[n],
        decreases 5 - i,
    {
        let mut t = [0u8; 640];
        assert(z_pack_ok(v@[i as int]@));
        polyz_pack(&mut t, &v[i]);
        let mut k: usize = 0;
        while k < 640
            invariant
                0 <= i < 5,
                0 <= k <= 640,
                b@.len() == 3200,
                t@ == polyz_pack_spec(v@[i as int]@),
                forall|ii: int, n: int| 0 <= ii < i && 0 <= n < 640 ==>
                    #[trigger] b@[640 * ii + n] == polyz_pack_spec(v@[ii]@)[n],
                forall|n: int| 0 <= n < k ==> #[trigger] b@[640 * i + n] == t@[n],
            decreases 640 - k,
        {
            b[640 * i + k] = t[k];
            proof {
                assert forall|ii: int, n: int| 0 <= ii < i && 0 <= n < 640 implies
                    #[trigger] b@[640 * ii + n] == polyz_pack_spec(v@[ii]@)[n] by {
                    assert(640 * ii + n < 640 * i);
                }
            }
            k += 1;
        }
        proof {
            assert forall|ii: int, n: int| 0 <= ii < i + 1 && 0 <= n < 640 implies
                #[trigger] b@[640 * ii + n] == polyz_pack_spec(v@[ii]@)[n] by {
                if ii == i as int {
                    assert(b@[640 * i + n] == t@[n]);
                }
            }
        }
        i += 1;
    }
    assert forall|k: int| 0 <= k < 3200 implies #[trigger] b@[k] == z_bytes(pv(v@))[k] by {
        lemma_block_index(k, 640);
        assert(b@[640 * (k / 640) + k % 640] == polyz_pack_spec(v@[k / 640]@)[k % 640]);
    }
    assert(b@ =~= z_bytes(pv(v@)));
    b
}

pub(crate) fn unpack_z(buf: &[u8], off: usize) -> (v: [Poly; 5])
    requires
        off + 3200 <= buf@.len(),
    ensures
        forall|i: int, c: int| 0 <= i < 5 && 0 <= c < 256 ==> -524287 <= #[trigger] v@[i]@[c] <= 524288,
        pv(v@) == z_vec_at(buf@, off as int),
{
    let blen = buf.len();
    let z = Poly::zero();
    let mut v: [Poly; 5] = [z, z, z, z, z];
    let mut i: usize = 0;
    while i < 5
        invariant
            0 <= i <= 5,
            v@.len() == 5,
            off + 3200 <= buf@.len(),
            blen == buf@.len(),
            forall|ii: int, c: int| 0 <= ii < i && 0 <= c < 256 ==> -524287 <= #[trigger] v@[ii]@[c] <= 524288,
            forall|ii: int| 0 <= ii < i ==> #[trigger] v@[ii]@
                == polyz_unpack_spec(buf@.subrange(off + 640 * ii, off + 640 * ii + 640)),
        decreases 5 - i,
    {
        let mut t = [0u8; 640];
        let mut k: usize = 0;
        while k < 640
            invariant
                0 <= i < 5,
                0 <= k <= 640,
                off + 3200 <= buf@.len(),
                blen == buf@.len(),
            blen == buf@.len(),
                t@.len() == 640,
                forall|n: int| 0 <= n < k ==> #[trigger] t@[n] == buf@[off + 640 * i + n],
            decreases 640 - k,
        {
            t[k] = buf[off + 640 * i + k];
            k += 1;
        }
        assert(t@ =~= buf@.subrange(off + 640 * i as int, off + 640 * i as int + 640));
        v[i] = polyz_unpack(&t);
        i += 1;
    }
    assert(pv(v@) =~= z_vec_at(buf@, off as int));
    v
}

fn w1_encode(v: &[Poly; 6]) -> (b: [u8; 768])
    ensures
        b@ == w1_bytes(pv(v@)),
{
    let mut b = [0u8; 768];
    let mut i: usize = 0;
    while i < 6
        invariant
            0 <= i <= 6,
            b@.len() == 768,
            forall|ii: int, n: int| 0 <= ii < i && 0 <= n < 128 ==>
                #[trigger] b@[128 * ii + n] == polyw1_pack_spec(v@[ii]@)[n],
        decreases 6 - i,
    {
        let mut t = [0u8; 128];
        polyw1_pack(&mut t, &v[i]);
        let mut k: usize = 0;
        while k < 128
            invariant
                0 <= i < 6,
                0 <= k <= 128,
                b@.len() == 768,
                t@ == polyw1_pack_spec(v@[i as int]@),
                forall|ii: int, n: int| 0 <= ii < i && 0 <= n < 128 ==>
                    #[trigger] b@[128 * ii + n] == polyw1_pack_spec(v@[ii]@)[n],
                forall|n: int| 0 <= n < k ==> #[trigger] b@[128 * i + n] == t@[n],
            decreases 128 - k,
        {
            b[128 * i + k] = t[k];
            proof {
                assert forall|ii: int, n: int| 0 <= ii < i && 0 <= n < 128 implies
                    #[trigger] b@[128 * ii + n] == polyw1_pack_spec(v@[ii]@)[n] by {
                    assert(128 * ii + n < 128 * i);
                }
            }
            k += 1;
        }
        proof {
            assert forall|ii: int, n: int| 0 <= ii < i + 1 && 0 <= n < 128 implies
                #[trigger] b@[128 * ii + n] == polyw1_pack_spec(v@[ii]@)[n] by {
                if ii == i as int {
                    assert(b@[128 * i + n] == t@[n]);
                }
            }
        }
        i += 1;
    }
    assert forall|k: int| 0 <= k < 768 implies #[trigger] b@[k] == w1_bytes(pv(v@))[k] by {
        lemma_block_index(k, 128);
        assert(b@[128 * (k / 128) + k % 128] == polyw1_pack_spec(v@[k / 128]@)[k % 128]);
    }
    assert(b@ =~= w1_bytes(pv(v@)));
    b
}

} // verus!

verus! {

/// ExpandA (Algorithm 32): A[r][s] = RejNTTPoly(rho || s || r).
pub(crate) fn expand_a(rho: &[u8; SEEDBYTES]) -> (a: [[Poly; L]; K])
    ensures
        forall|r: int, s: int| 0 <= r < 6 && 0 <= s < 5 ==>
            #[trigger] a@[r]@[s]@ == rej_ntt_spec(rho@, s as u8, r as u8),
        forall|r: int, s: int| 0 <= r < 6 && 0 <= s < 5 ==> #[trigger] all_reduced(a@[r]@[s].coeffs@),
        mv(a@) == expand_a_spec(rho@),
{
    let z = Poly::zero();
    let zrow: [Poly; L] = [z, z, z, z, z];
    let mut a: [[Poly; L]; K] = [zrow, zrow, zrow, zrow, zrow, zrow];
    let mut r: usize = 0;
    while r < K
        invariant
            0 <= r <= 6,
            a@.len() == 6,
            forall|rr: int, s: int| 0 <= rr < r && 0 <= s < 5 ==>
                #[trigger] a@[rr]@[s]@ == rej_ntt_spec(rho@, s as u8, rr as u8),
            forall|rr: int, s: int| 0 <= rr < r && 0 <= s < 5 ==> #[trigger] all_reduced(a@[rr]@[s].coeffs@),
        decreases 6 - r,
    {
        let mut row: [Poly; L] = [z, z, z, z, z];
        let mut s: usize = 0;
        while s < L
            invariant
                0 <= r < 6,
                0 <= s <= 5,
                row@.len() == 5,
                forall|ss: int| 0 <= ss < s ==> #[trigger] row@[ss]@ == rej_ntt_spec(rho@, ss as u8, r as u8),
                forall|ss: int| 0 <= ss < s ==> #[trigger] all_reduced(row@[ss].coeffs@),
            decreases 5 - s,
        {
            let p = rej_ntt_poly(rho, s as u8, r as u8);
            proof {
                crate::sampling::lemma_rej_ntt_reduced(rho@, s as u8, r as u8);
                assert forall|c: int| 0 <= c < 256 implies 0 <= #[trigger] p.coeffs@[c] < q() by {
                    assert(p@[c] == p.coeffs@[c] as int);
                }
            }
            row[s] = p;
            s += 1;
        }
        a[r] = row;
        r += 1;
    }
    assert(mv(a@) =~= expand_a_spec(rho@)) by {
        assert forall|rr: int| 0 <= rr < 6 implies #[trigger] mv(a@)[rr] =~= expand_a_spec(rho@)[rr] by {
            assert forall|ss: int| 0 <= ss < 5 implies #[trigger] mv(a@)[rr][ss] == expand_a_spec(rho@)[rr][ss] by {
                assert(a@[rr]@[ss]@ == rej_ntt_spec(rho@, ss as u8, rr as u8));
            }
        }
    }
    a
}

/// ExpandS (Algorithm 33): s1[r] from nonce r, s2[r] from nonce r + L.
fn expand_s(rho_prime: &[u8; 64]) -> (res: ([Poly; L], [Poly; K]))
    ensures
        forall|r: int| 0 <= r < 5 ==> #[trigger] res.0@[r]@ == rej_bounded_spec(seed_with_nonce(rho_prime@, r)),
        forall|r: int| 0 <= r < 6 ==> #[trigger] res.1@[r]@ == rej_bounded_spec(seed_with_nonce(rho_prime@, r + 5)),
        forall|r: int, c: int| 0 <= r < 5 && 0 <= c < 256 ==> -4 <= #[trigger] res.0@[r]@[c] <= 4,
        forall|r: int, c: int| 0 <= r < 6 && 0 <= c < 256 ==> -4 <= #[trigger] res.1@[r]@[c] <= 4,
        pv(res.0@) == expand_s1_spec(rho_prime@),
        pv(res.1@) == expand_s2_spec(rho_prime@),
{
    let z = Poly::zero();
    let mut s1: [Poly; L] = [z, z, z, z, z];
    let mut s2: [Poly; K] = [z, z, z, z, z, z];
    let mut seed = [0u8; 66];
    let mut k: usize = 0;
    while k < 64
        invariant
            0 <= k <= 64,
            seed@.len() == 66,
            forall|n: int| 0 <= n < k ==> #[trigger] seed@[n] == rho_prime@[n],
        decreases 64 - k,
    {
        seed[k] = rho_prime[k];
        k += 1;
    }
    let mut r: usize = 0;
    while r < L + K
        invariant
            0 <= r <= 11,
            seed@.len() == 66,
            s1@.len() == 5,
            s2@.len() == 6,
            forall|n: int| 0 <= n < 64 ==> #[trigger] seed@[n] == rho_prime@[n],
            forall|rr: int| 0 <= rr < 5 && rr < r ==> #[trigger] s1@[rr]@ == rej_bounded_spec(seed_with_nonce(rho_prime@, rr)),
            forall|rr: int| 0 <= rr < 6 && rr + 5 < r ==> #[trigger] s2@[rr]@ == rej_bounded_spec(seed_with_nonce(rho_prime@, rr + 5)),
            forall|rr: int, c: int| 0 <= rr < 5 && rr < r && 0 <= c < 256 ==> -4 <= #[trigger] s1@[rr]@[c] <= 4,
            forall|rr: int, c: int| 0 <= rr < 6 && rr + 5 < r && 0 <= c < 256 ==> -4 <= #[trigger] s2@[rr]@[c] <= 4,
        decreases 11 - r,
    {
        seed[64] = (r & 0xFF) as u8;
        seed[65] = ((r >> 8) & 0xFF) as u8;
        proof {
            assert((r & 0xFF) == r && ((r >> 8) & 0xFF) == 0) by (bit_vector)
                requires r < 11;
            assert(seed@ =~= seed_with_nonce(rho_prime@, r as int));
        }
        let p = rej_bounded_poly(&seed);
        if r < L {
            s1[r] = p;
        } else {
            s2[r - L] = p;
        }
        r += 1;
    }
    assert(pv(s1@) =~= expand_s1_spec(rho_prime@));
    assert(pv(s2@) =~= expand_s2_spec(rho_prime@));
    (s1, s2)
}

} // verus!

verus! {

// ---------------------------------------------------------------------------
// Byte-string helpers
// ---------------------------------------------------------------------------

/// Writes `src` into `dst` at offset `off`.
pub(crate) fn write_bytes(dst: &mut [u8], off: usize, src: &[u8])
    requires
        off + src@.len() <= old(dst)@.len(),
    ensures
        final(dst)@ == old(dst)@.subrange(0, off as int) + src@
            + old(dst)@.subrange(off + src@.len(), old(dst)@.len() as int),
{
    let n = src.len();
    let dl = dst.len();
    let ghost d0 = dst@;
    let mut k: usize = 0;
    while k < n
        invariant
            0 <= k <= n,
            n == src@.len(),
            dst@.len() == d0.len(),
            dl == d0.len(),
            off + n <= d0.len(),
            d0 == old(dst)@,
            forall|j: int| 0 <= j < off ==> #[trigger] dst@[j] == d0[j],
            forall|j: int| off + n <= j < d0.len() ==> #[trigger] dst@[j] == d0[j],
            forall|j: int| 0 <= j < k ==> #[trigger] dst@[off + j] == src@[j],
        decreases n - k,
    {
        dst[off + k] = src[k];
        k += 1;
    }
    assert(dst@ =~= d0.subrange(0, off as int) + src@ + d0.subrange(off + src@.len(), d0.len() as int)) by {
        assert forall|j: int| off <= j < off + n implies #[trigger] dst@[j] == src@[j - off] by {
            assert(dst@[off + (j - off)] == src@[j - off]);
        }
    }
}

/// The 32 bytes of `src` from offset `off`.
pub(crate) fn take32(src: &[u8], off: usize) -> (r: [u8; 32])
    requires
        off + 32 <= src@.len(),
    ensures
        r@ == src@.subrange(off as int, off + 32),
{
    let sl = src.len();
    let mut r = [0u8; 32];
    let mut k: usize = 0;
    while k < 32
        invariant
            0 <= k <= 32,
            off + 32 <= src@.len(),
            sl == src@.len(),
            r@.len() == 32,
            forall|j: int| 0 <= j < k ==> #[trigger] r@[j] == src@[off + j],
        decreases 32 - k,
    {
        r[k] = src[off + k];
        k += 1;
    }
    assert(r@ =~= src@.subrange(off as int, off + 32));
    r
}

/// The 64 bytes of `src` from offset `off`.
pub(crate) fn take64(src: &[u8], off: usize) -> (r: [u8; 64])
    requires
        off + 64 <= src@.len(),
    ensures
        r@ == src@.subrange(off as int, off + 64),
{
    let sl = src.len();
    let mut r = [0u8; 64];
    let mut k: usize = 0;
    while k < 64
        invariant
            0 <= k <= 64,
            off + 64 <= src@.len(),
            sl == src@.len(),
            r@.len() == 64,
            forall|j: int| 0 <= j < k ==> #[trigger] r@[j] == src@[off + j],
        decreases 64 - k,
    {
        r[k] = src[off + k];
        k += 1;
    }
    assert(r@ =~= src@.subrange(off as int, off + 64));
    r
}

// ---------------------------------------------------------------------------
// Key generation (Algorithm 6)
// ---------------------------------------------------------------------------

/// The vectors of key generation: s1 and s2 from rho', and
/// t = NTT^-1(A * NTT(s1)) + s2 reduced modulo q, with A from rho.
fn keygen_vectors(rho: &[u8; 32], rho_p: &[u8; 64]) -> (res: ([Poly; L], [Poly; K], [Poly; K]))
    ensures
        pv(res.0@) == expand_s1_spec(rho_p@),
        pv(res.1@) == expand_s2_spec(rho_p@),
        forall|r: int, c: int| 0 <= r < 5 && 0 <= c < 256 ==> -4 <= #[trigger] res.0@[r]@[c] <= 4,
        forall|r: int, c: int| 0 <= r < 6 && 0 <= c < 256 ==> -4 <= #[trigger] res.1@[r]@[c] <= 4,
        pv(res.2@) == vreduce(vadd(vinvntt(matmul_spec(expand_a_spec(rho@), vntt(expand_s1_spec(rho_p@)))),
            expand_s2_spec(rho_p@))),
{
    let a_hat = expand_a(rho);
    let (s1, s2) = expand_s(rho_p);
    let mut s1_hat = s1;
    proof {
        assert forall|i: int| 0 <= i < 5 implies #[trigger] ntt_input_ok(s1_hat@[i].coeffs@) by {
            assert forall|c: int| 0 <= c < 256 implies
                -1073741824 <= #[trigger] s1_hat@[i].coeffs@[c] <= 1073741824 by {
                assert(s1@[i]@[c] == s1@[i].coeffs@[c] as int);
            }
            lemma_ntt_input_small(s1_hat@[i].coeffs@);
        }
    }
    vecl_ntt(&mut s1_hat);
    let mut t = matrix_mul(&a_hat, &s1_hat);
    proof {
        assert forall|i: int| 0 <= i < 6 implies #[trigger] invntt_input_ok(t@[i].coeffs@) by {
            assert(all_reduced(t@[i].coeffs@));
            lemma_invntt_input_small(t@[i].coeffs@);
        }
    }
    veck_invntt(&mut t);
    proof {
        assert forall|i: int| 0 <= i < 6 implies #[trigger] add_fits(t@[i]@, s2@[i]@) by {
            assert(all_reduced(t@[i].coeffs@));
            assert forall|c: int| 0 <= c < 256 implies i32::MIN <= #[trigger] t@[i]@[c] + s2@[i]@[c] <= i32::MAX by {
                assert(t@[i]@[c] == t@[i].coeffs@[c] as int);
            }
        }
    }
    let mut t_full = veck_add(&t, &s2);
    veck_reduce(&mut t_full);
    (s1, s2, t_full)
}

/// pkEncode (Algorithm 22): rho followed by the packed t1.
fn encode_pk(rho: &[u8; 32], t1: &[Poly; K]) -> (pk: [u8; PUBLICKEYBYTES])
    ensures
        pk@ == pk_encode(rho@, pv(t1@)),
{
    let t1b = pack_t1(t1);
    let mut pk = [0u8; PUBLICKEYBYTES];
    write_bytes(&mut pk, 0, rho);
    write_bytes(&mut pk, 32, &t1b);
    assert(pk@ =~= pk_encode(rho@, pv(t1@)));
    pk
}

/// skEncode (Algorithm 24): rho, K, tr, then the packed s1, s2 and t0.
fn encode_sk(rho: &[u8; 32], cap_k: &[u8; 32], tr: &[u8; 64], s1: &[Poly; L], s2: &[Poly; K], t0: &[Poly; K])
    -> (sk: [u8; SECRETKEYBYTES])
    requires
        forall|i: int| 0 <= i < 5 ==> #[trigger] eta_digits_fit(s1@[i]@),
        forall|i: int| 0 <= i < 6 ==> #[trigger] eta_digits_fit(s2@[i]@),
        forall|i: int| 0 <= i < 6 ==> #[trigger] t0_pack_ok(t0@[i]@),
    ensures
        sk@ == sk_encode(rho@, cap_k@, tr@, pv(s1@), pv(s2@), pv(t0@)),
{
    let b1 = pack_s1(s1);
    let b2 = pack_s2(s2);
    let b3 = pack_t0(t0);
    let mut sk = [0u8; SECRETKEYBYTES];
    write_bytes(&mut sk, 0, rho);
    write_bytes(&mut sk, 32, cap_k);
    write_bytes(&mut sk, 64, tr);
    write_bytes(&mut sk, 128, &b1);
    write_bytes(&mut sk, 768, &b2);
    write_bytes(&mut sk, 1536, &b3);
    assert(sk@ =~= sk_encode(rho@, cap_k@, tr@, pv(s1@), pv(s2@), pv(t0@)));
    sk
}

/// ML-DSA.KeyGen_internal (Algorithm 6): the key pair derived from the 32-byte
/// seed xi. Always succeeds.
pub fn keypair_from_seed(xi: &[u8; SEEDBYTES]) -> (r: Result<([u8; PUBLICKEYBYTES], [u8; SECRETKEYBYTES]), MlDsaError>)
    ensures
        r matches Ok((pk, sk)) && pk@ == keygen_pk(xi@) && sk@ == keygen_sk(xi@),
        keygen_expansion(xi@).len() == 128,
        shake256_output(keygen_pk(xi@), 64).len() == 64,
{
    let mut expanded = [0u8; 128];
    let sep1: [u8; 1] = [0x02u8];
    let sep2: [u8; 1] = [0x00u8];
    shake256_3(&mut expanded, xi, &sep1, &sep2);
    proof {
        assert(xi@ + sep1@ + sep2@ =~= xi@ + seq![2u8, 0u8]);
    }
    let rho = take32(&expanded, 0);
    let rho_p = take64(&expanded, 32);
    let cap_k = take32(&expanded, 96);
    let (s1, s2, t_full) = keygen_vectors(&rho, &rho_p);
    let (t1, t0) = veck_power2round(&t_full);
    let pk = encode_pk(&rho, &t1);
    let mut tr = [0u8; TRBYTES];
    shake256(&mut tr, &pk);
    proof {
        assert forall|i: int| 0 <= i < 5 implies #[trigger] eta_digits_fit(s1@[i]@) by {
            assert forall|c: int| 0 <= c < 256 implies -11 <= #[trigger] s1@[i]@[c] <= 4 by {
                assert(-4 <= s1@[i]@[c] <= 4);
            }
        }
        assert forall|i: int| 0 <= i < 6 implies #[trigger] eta_digits_fit(s2@[i]@) by {
            assert forall|c: int| 0 <= c < 256 implies -11 <= #[trigger] s2@[i]@[c] <= 4 by {
                assert(-4 <= s2@[i]@[c] <= 4);
            }
        }
        assert forall|i: int| 0 <= i < 6 implies #[trigger] t0_pack_ok(t0@[i]@) by {
            assert forall|c: int| 0 <= c < 256 implies 4096 - i32::MAX <= #[trigger] t0@[i]@[c] by {
                assert(t1@[i]@[c] == power2round_spec(t_full@[i]@[c]).0);
                assert(t0@[i]@[c] == power2round_spec(t_full@[i]@[c]).1);
            }
        }
    }
    let sk = encode_sk(&rho, &cap_k, &tr, &s1, &s2, &t0);
    Ok((pk, sk))
}

} // verus!

verus! {

// ---------------------------------------------------------------------------
// Signing (Algorithm 7)
// ---------------------------------------------------------------------------

/// Coefficients bounded by b <= 2^30 are valid NTT inputs.
pub(crate) proof fn lemma_small_ntt_ok(p: Poly, b: int)
    requires
        0 <= b <= 1073741824,
        forall|c: int| 0 <= c < 256 ==> -b <= #[trigger] p@[c] <= b,
    ensures
        ntt_input_ok(p.coeffs@),
{
    assert forall|c: int| 0 <= c < 256 implies -1073741824 <= #[trigger] p.coeffs@[c] <= 1073741824 by {
        assert(p@[c] == p.coeffs@[c] as int);
    }
    lemma_ntt_input_small(p.coeffs@);
}

/// Reduced coefficients are valid inputs of the inverse NTT.
pub(crate) proof fn lemma_reduced_invntt_ok(p: Poly)
    requires
        all_reduced(p.coeffs@),
    ensures
        invntt_input_ok(p.coeffs@),
{
    lemma_invntt_input_small(p.coeffs@);
}

/// The matrix A and the NTT images of s1, s2 and t0 recovered from a secret key.
fn sign_precompute(sk: &[u8; SECRETKEYBYTES]) -> (res: ([[Poly; L]; K], [Poly; L], [Poly; K], [Poly; K]))
    ensures
        mv(res.0@) == expand_a_spec(sk_rho(sk@)),
        forall|r: int, s: int| 0 <= r < 6 && 0 <= s < 5 ==> #[trigger] all_reduced(res.0@[r]@[s].coeffs@),
        pv(res.1@) == vntt(sk_s1(sk@)),
        vec_reduced(res.1@),
        pv(res.2@) == vntt(sk_s2(sk@)),
        vec_reduced(res.2@),
        pv(res.3@) == vntt(sk_t0(sk@)),
        vec_reduced(res.3@),
{
    let rho = take32(sk, 0);
    let mut s1 = unpack_s1(sk, 128);
    let mut s2 = unpack_s2(sk, 768);
    let mut t0 = unpack_t0(sk, 1536);
    proof {
        assert forall|i: int| 0 <= i < 5 implies #[trigger] ntt_input_ok(s1@[i].coeffs@) by {
            lemma_small_ntt_ok(s1@[i], 11);
        }
        assert forall|i: int| 0 <= i < 6 implies #[trigger] ntt_input_ok(s2@[i].coeffs@) by {
            lemma_small_ntt_ok(s2@[i], 11);
        }
        assert forall|i: int| 0 <= i < 6 implies #[trigger] ntt_input_ok(t0@[i].coeffs@) by {
            lemma_small_ntt_ok(t0@[i], 4096);
        }
    }
    vecl_ntt(&mut s1);
    veck_ntt(&mut s2);
    veck_ntt(&mut t0);
    let a_hat = expand_a(&rho);
    (a_hat, s1, s2, t0)
}

/// The mask y (ExpandMask with counter kappa), the commitment w and the
/// commitment hash c~ = H(mu || w1Encode(HighBits(w)), 48) of one attempt.
fn sign_commit(a_hat: &[[Poly; L]; K], mu: &[u8; 64], rho_pp: &[u8; 64], kappa: u16)
    -> (res: ([Poly; L], [Poly; K], [u8; 48]))
    requires
        kappa <= 65530,
        forall|r: int, s: int| 0 <= r < 6 && 0 <= s < 5 ==> #[trigger] all_reduced(a_hat@[r]@[s].coeffs@),
    ensures
        pv(res.0@) == mask_spec(rho_pp@, kappa as int),
        forall|i: int, c: int| 0 <= i < 5 && 0 <= c < 256 ==> -524288 < #[trigger] res.0@[i]@[c] <= 524288,
        pv(res.1@) == commitment(mv(a_hat@), mask_spec(rho_pp@, kappa as int)),
        vec_reduced(res.1@),
        res.2@ == shake256_output(mu@ + w1_bytes(vhigh(pv(res.1@))), 48),
{
    let y = mask_vector(rho_pp, kappa);
    let mut y_hat = y;
    proof {
        assert forall|i: int| 0 <= i < 5 implies #[trigger] ntt_input_ok(y_hat@[i].coeffs@) by {
            lemma_small_ntt_ok(y_hat@[i], 524288);
        }
    }
    vecl_ntt(&mut y_hat);
    let mut w = matrix_mul(a_hat, &y_hat);
    proof {
        assert forall|i: int| 0 <= i < 6 implies #[trigger] invntt_input_ok(w@[i].coeffs@) by {
            lemma_reduced_invntt_ok(w@[i]);
        }
    }
    veck_invntt(&mut w);
    veck_reduce(&mut w);
    let c_tilde = challenge_seed(&w, mu);
    (y, w, c_tilde)
}

/// y = ExpandMask(rho'', kappa): polynomial i from nonce kappa + i.
pub(crate) fn mask_vector(rho_pp: &[u8; 64], kappa: u16) -> (y: [Poly; L])
    requires
        kappa <= 65530,
    ensures
        pv(y@) == mask_spec(rho_pp@, kappa as int),
        forall|i: int, c: int| 0 <= i < 5 && 0 <= c < 256 ==> -524288 < #[trigger] y@[i]@[c] <= 524288,
{
    let z = Poly::zero();
    let mut y: [Poly; L] = [z, z, z, z, z];
    let mut i: usize = 0;
    while i < L
        invariant
            0 <= i <= 5,
            kappa <= 65530,
            y@.len() == 5,
            forall|ii: int| 0 <= ii < i ==> #[trigger] y@[ii]@ == expand_mask_spec(rho_pp@, kappa + ii),
            forall|ii: int, c: int| 0 <= ii < i && 0 <= c < 256 ==> -524288 < #[trigger] y@[ii]@[c] <= 524288,
        decreases 5 - i,
    {
        y[i] = expand_mask_poly(rho_pp, kappa + i as u16);
        i += 1;
    }
    assert(pv(y@) =~= mask_spec(rho_pp@, kappa as int));
    y
}

/// The commitment hash c~ = H(mu || w1Encode(HighBits(w)), 48).
pub(crate) fn challenge_seed(w: &[Poly; K], mu: &[u8; 64]) -> (c_tilde: [u8; 48])
    ensures
        c_tilde@ == shake256_output(mu@ + w1_bytes(vhigh(pv(w@))), 48),
{
    let (w1, _w0) = veck_decompose(w);
    let w1b = w1_encode(&w1);
    let mut c_tilde = [0u8; 48];
    shake256_2(&mut c_tilde, mu, &w1b);
    c_tilde
}

/// z = y + c*s1 on every coefficient, modulo q.
fn vecl_add(a: &[Poly; L], b: &[Poly; L]) -> (r: [Poly; L])
    requires
        forall|i: int| 0 <= i < 5 ==> #[trigger] add_fits(a@[i]@, b@[i]@),
    ensures
        pv(r@) == vadd(pv(a@), pv(b@)),
        vec_reduced(r@),
{
    let z = Poly::zero();
    let mut r: [Poly; L] = [z, z, z, z, z];
    let mut i: usize = 0;
    while i < L
        invariant
            0 <= i <= 5,
            r@.len() == 5,
            forall|ii: int| 0 <= ii < 5 ==> #[trigger] add_fits(a@[ii]@, b@[ii]@),
            forall|ii: int| 0 <= ii < i ==> #[trigger] r@[ii]@ == add_spec(a@[ii]@, b@[ii]@),
            forall|ii: int| 0 <= ii < i ==> #[trigger] all_reduced(r@[ii].coeffs@),
        decreases 5 - i,
    {
        assert(add_fits(a@[i as int]@, b@[i as int]@));
        r[i] = a[i].add(&b[i]);
        i += 1;
    }
    assert(pv(r@) =~= vadd(pv(a@), pv(b@)));
    r
}

/// The centred representatives of every coefficient of z.
pub(crate) fn vecl_centered(v: &[Poly; L]) -> (r: [Poly; L])
    ensures
        pv(r@) == vcentered(pv(v@)),
        forall|i: int| 0 <= i < 5 ==> #[trigger] z_pack_ok(r@[i]@),
{
    let mut r = *v;
    let mut i: usize = 0;
    while i < L
        invariant
            0 <= i <= 5,
            r@.len() == 5,
            forall|ii: int| 0 <= ii < i ==> #[trigger] r@[ii]@ == vcentered(pv(v@))[ii],
            forall|ii: int| 0 <= ii < i ==> #[trigger] z_pack_ok(r@[ii]@),
            forall|ii: int| i <= ii < 5 ==> #[trigger] r@[ii] == v@[ii],
        decreases 5 - i,
    {
        let mut p = v[i];
        let mut j: usize = 0;
        while j < N
            invariant
                0 <= i < 5,
                0 <= j <= 256,
                forall|c: int| 0 <= c < j ==> #[trigger] p.coeffs@[c] as int
                    == centered_spec(v@[i as int].coeffs@[c] as int),
                forall|c: int| 0 <= c < j ==> -4190208 <= #[trigger] p.coeffs@[c] <= 4190208,
                forall|c: int| j <= c < 256 ==> #[trigger] p.coeffs@[c] == v@[i as int].coeffs@[c],
            decreases 256 - j,
        {
            p.coeffs[j] = centered(p.coeffs[j]);
            j += 1;
        }
        r[i] = p;
        assert forall|c: int| 0 <= c < 256 implies #[trigger] p@[c] == vcentered(pv(v@))[i as int][c] by {
            assert(p@[c] == p.coeffs@[c] as int);
            assert(v@[i as int]@[c] == v@[i as int].coeffs@[c] as int);
        }
        assert(p@ =~= vcentered(pv(v@))[i as int]);
        i += 1;
    }
    assert(pv(r@) =~= vcentered(pv(v@)));
    r
}

/// MakeHint(-ct0, w - cs2 + ct0) on every coefficient.
fn make_hints(ct0: &[Poly; K], wp: &[Poly; K]) -> (h: [Poly; K])
    requires
        vec_reduced(ct0@),
        vec_reduced(wp@),
    ensures
        forall|i: int, j: int| 0 <= i < 6 && 0 <= j < 256 ==>
            #[trigger] h@[i]@[j] == make_hint_spec((-ct0@[i]@[j]) % q(), wp@[i]@[j]),
{
    let z = Poly::zero();
    let mut h: [Poly; K] = [z, z, z, z, z, z];
    let mut i: usize = 0;
    while i < K
        invariant
            0 <= i <= 6,
            h@.len() == 6,
            vec_reduced(ct0@),
            vec_reduced(wp@),
            forall|ii: int, j: int| 0 <= ii < i && 0 <= j < 256 ==>
                #[trigger] h@[ii]@[j] == make_hint_spec((-ct0@[ii]@[j]) % q(), wp@[ii]@[j]),
        decreases 6 - i,
    {
        let mut p = Poly::zero();
        let mut j: usize = 0;
        while j < N
            invariant
                0 <= i < 6,
                0 <= j <= 256,
                vec_reduced(ct0@),
                vec_reduced(wp@),
                forall|c: int| 0 <= c < j ==>
                    #[trigger] p.coeffs@[c] as int == make_hint_spec((-(ct0@[i as int].coeffs@[c] as int)) % q(),
                        wp@[i as int].coeffs@[c] as int),
            decreases 256 - j,
        {
            assert(all_reduced(ct0@[i as int].coeffs@) && all_reduced(wp@[i as int].coeffs@));
            let neg = freeze(-ct0[i].coeffs[j]);
            p.coeffs[j] = make_hint_coeff(neg, wp[i].coeffs[j]);
            j += 1;
        }
        h[i] = p;
        proof {
            assert forall|ii: int, j: int| 0 <= ii < i + 1 && 0 <= j < 256 implies
                #[trigger] h@[ii]@[j] == make_hint_spec((-ct0@[ii]@[j]) % q(), wp@[ii]@[j]) by {
                if ii == i as int {
                    assert(h@[ii] == p);
                    assert(p@[j] == p.coeffs@[j] as int);
                    assert(ct0@[ii]@[j] == ct0@[ii].coeffs@[j] as int);
                    assert(wp@[ii]@[j] == wp@[ii].coeffs@[j] as int);
                }
            }
        }
        i += 1;
    }
    h
}

} // verus!

verus! {

/// The response of one attempt: None when a check rejects it, else the packed
/// centred z and the packed hints.
#[verifier::rlimit(30)]
fn sign_respond(y: &[Poly; L], w: &[Poly; K], c_hat: &Poly, s1_hat: &[Poly; L], s2_hat: &[Poly; K], t0_hat: &[Poly; K])
    -> (res: Option<([u8; 3200], [u8; 61])>)
    requires
        forall|i: int, c: int| 0 <= i < 5 && 0 <= c < 256 ==> -524288 < #[trigger] y@[i]@[c] <= 524288,
        vec_reduced(w@),
    ensures
        ({
            let z = response_z(pv(y@), c_hat@, pv(s1_hat@));
            let wm = response_wm(pv(w@), c_hat@, pv(s2_hat@));
            let ct0 = response_ct0(c_hat@, pv(t0_hat@));
            &&& res is Some <==> response_ok(z, wm, ct0)
            &&& res matches Some((zb, hb)) ==> zb@ == z_bytes(vcentered(z)) && hb@ == hint_bytes(hint_vector(ct0, wm))
        }),
{
    let mut cs1 = c_mul_vecl(c_hat, s1_hat);
    proof {
        assert forall|i: int| 0 <= i < 5 implies #[trigger] invntt_input_ok(cs1@[i].coeffs@) by {
            lemma_reduced_invntt_ok(cs1@[i]);
        }
    }
    vecl_invntt(&mut cs1);
    proof {
        assert forall|i: int| 0 <= i < 5 implies #[trigger] add_fits(y@[i]@, cs1@[i]@) by {
            assert(all_reduced(cs1@[i].coeffs@));
            assert forall|c: int| 0 <= c < 256 implies i32::MIN <= #[trigger] y@[i]@[c] + cs1@[i]@[c] <= i32::MAX by {
                assert(cs1@[i]@[c] == cs1@[i].coeffs@[c] as int);
                assert(-524288 < y@[i]@[c] <= 524288);
            }
        }
    }
    let z = vecl_add(y, &cs1);
    let ghost zs = response_z(pv(y@), c_hat@, pv(s1_hat@));
    assert(pv(z@) == zs);
    if !chknorm_vecl(&z, 524288 - 196) {
        return None;
    }

    let mut cs2 = c_mul_veck(c_hat, s2_hat);
    proof {
        assert forall|i: int| 0 <= i < 6 implies #[trigger] invntt_input_ok(cs2@[i].coeffs@) by {
            lemma_reduced_invntt_ok(cs2@[i]);
        }
    }
    veck_invntt(&mut cs2);
    proof {
        assert forall|i: int| 0 <= i < 6 implies #[trigger] sub_fits(w@[i]@, cs2@[i]@) by {
            assert(all_reduced(cs2@[i].coeffs@) && all_reduced(w@[i].coeffs@));
            assert forall|c: int| 0 <= c < 256 implies i32::MIN <= #[trigger] w@[i]@[c] - cs2@[i]@[c] <= i32::MAX by {
                assert(cs2@[i]@[c] == cs2@[i].coeffs@[c] as int);
                assert(w@[i]@[c] == w@[i].coeffs@[c] as int);
            }
        }
    }
    let wm = veck_sub(w, &cs2);
    let ghost wms = response_wm(pv(w@), c_hat@, pv(s2_hat@));
    assert(pv(wm@) == wms);
    let mut ct0 = c_mul_veck(c_hat, t0_hat);
    proof {
        assert forall|i: int| 0 <= i < 6 implies #[trigger] invntt_input_ok(ct0@[i].coeffs@) by {
            lemma_reduced_invntt_ok(ct0@[i]);
        }
    }
    veck_invntt(&mut ct0);
    veck_reduce(&mut ct0);
    let ghost ct0s = response_ct0(c_hat@, pv(t0_hat@));
    assert(pv(ct0@) == ct0s);
    match finish_attempt(&wm, &ct0) {
        None => None,
        Some(hb) => {
            let zc = vecl_centered(&z);
            let zb = pack_z(&zc);
            Some((zb, hb))
        },
    }
}

/// The checks of an attempt after the one on z (||r0|| < gamma2 - beta,
/// ||ct0|| < gamma2, at most OMEGA hints), and the encoding of the hints when
/// they pass.
pub(crate) fn finish_attempt(wm: &[Poly; K], ct0: &[Poly; K]) -> (res: Option<[u8; 61]>)
    requires
        vec_reduced(wm@),
        vec_reduced(ct0@),
    ensures
        res is Some <==> vnorm_below(vlow(pv(wm@)), 261888 - 196) && vnorm_below(pv(ct0@), 261888)
            && hint_total(hint_vector(pv(ct0@), pv(wm@))) <= 55,
        res matches Some(hb) ==> hb@ == hint_bytes(hint_vector(pv(ct0@), pv(wm@))),
{
    let ghost wms = pv(wm@);
    let ghost ct0s = pv(ct0@);
    let (_r1, r0) = veck_decompose(wm);
    if !chknorm_veck(&r0, 261888 - 196) {
        return None;
    }
    if !chknorm_veck(ct0, 261888) {
        return None;
    }
    proof {
        assert forall|i: int| 0 <= i < 6 implies #[trigger] add_fits(wm@[i]@, ct0@[i]@) by {
            assert(all_reduced(ct0@[i].coeffs@) && all_reduced(wm@[i].coeffs@));
            assert forall|c: int| 0 <= c < 256 implies i32::MIN <= #[trigger] wm@[i]@[c] + ct0@[i]@[c] <= i32::MAX by {
                assert(ct0@[i]@[c] == ct0@[i].coeffs@[c] as int);
                assert(wm@[i]@[c] == wm@[i].coeffs@[c] as int);
            }
        }
    }
    let wp = veck_add(wm, ct0);
    let h = make_hints(ct0, &wp);
    proof {
        assert forall|i: int| 0 <= i < 6 implies #[trigger] pv(h@)[i] =~= hint_vector(ct0s, wms)[i] by {
            assert forall|j: int| 0 <= j < 256 implies #[trigger] pv(h@)[i][j] == hint_vector(ct0s, wms)[i][j] by {
                assert(h@[i]@[j] == make_hint_spec((-ct0@[i]@[j]) % q(), wp@[i]@[j]));
                assert(wp@[i]@[j] == add_spec(wm@[i]@, ct0@[i]@)[j]);
            }
        }
        assert(pv(h@) =~= hint_vector(ct0s, wms));
    }
    let mut hbuf = [0u8; 61];
    match hint_pack(&h, &mut hbuf) {
        None => {
            return None;
        },
        Some(_) => {},
    }
    Some(hbuf)
}

/// One attempt of the rejection loop with counter kappa.
fn sign_attempt_exec(a_hat: &[[Poly; L]; K], s1_hat: &[Poly; L], s2_hat: &[Poly; K], t0_hat: &[Poly; K],
    mu: &[u8; 64], rho_pp: &[u8; 64], kappa: u16, Ghost(sk): Ghost<Seq<u8>>) -> (r: Option<[u8; SIGNBYTES]>)
    requires
        kappa <= 65530,
        mv(a_hat@) == expand_a_spec(sk_rho(sk)),
        forall|r: int, s: int| 0 <= r < 6 && 0 <= s < 5 ==> #[trigger] all_reduced(a_hat@[r]@[s].coeffs@),
        pv(s1_hat@) == vntt(sk_s1(sk)),
        pv(s2_hat@) == vntt(sk_s2(sk)),
        pv(t0_hat@) == vntt(sk_t0(sk)),
    ensures
        match r {
            Some(sig) => sign_attempt(sk, mu@, rho_pp@, kappa as int) == Some(sig@),
            None => sign_attempt(sk, mu@, rho_pp@, kappa as int) is None,
        },
{
    proof {
        reveal(attempt_with);
    }
    let (y, w, c_tilde) = sign_commit(a_hat, mu, rho_pp, kappa);
    let mut c_hat = sample_in_ball(&c_tilde);
    proof {
        lemma_small_ntt_ok(c_hat, 1);
    }
    c_hat.ntt();
    match sign_respond(&y, &w, &c_hat, s1_hat, s2_hat, t0_hat) {
        None => None,
        Some((zb, hb)) => {
            let mut sig = [0u8; SIGNBYTES];
            write_bytes(&mut sig, 0, &c_tilde);
            write_bytes(&mut sig, 48, &zb);
            write_bytes(&mut sig, 3248, &hb);
            assert(sig@ =~= c_tilde@ + zb@ + hb@);
            Some(sig)
        },
    }
}

/// ML-DSA.Sign_internal (Algorithm 7) on the formatted message M' and the 32
/// random bytes rnd. The rejection loop tries counters 0, 5, 10, ... while the
/// 16-bit nonces last; if none is accepted the result is
/// `RejectionLimitReached`.
pub fn sign_internal(sk: &[u8; SECRETKEYBYTES], msg_prime: &[u8], rnd: &[u8; RNDBYTES])
    -> (r: Result<[u8; SIGNBYTES], MlDsaError>)
    ensures
        match sign_spec(sk@, msg_prime@, rnd@) {
            Some(sig) => r matches Ok(s) && s@ == sig,
            None => r == Err::<[u8; SIGNBYTES], MlDsaError>(MlDsaError::RejectionLimitReached),
        },
{
    let (a_hat, s1_hat, s2_hat, t0_hat) = sign_precompute(sk);
    let cap_k = take32(sk, 32);
    let tr = take64(sk, 64);
    let mut mu = [0u8; 64];
    shake256_2(&mut mu, &tr, msg_prime);
    let mut rho_pp = [0u8; 64];
    shake256_3(&mut rho_pp, &cap_k, rnd, &mu);
    let ghost skv = sk@;
    let mut kappa: u16 = 0;
    loop
        invariant
            skv == sk@,
            kappa <= 65535,
            kappa % 5 == 0,
            mu@ == message_digest(sk_tr(skv), msg_prime@),
            rho_pp@ == private_seed(sk_key(skv), rnd@, mu@),
            sign_loop(skv, mu@, rho_pp@, kappa as int) == sign_spec(skv, msg_prime@, rnd@),
            mv(a_hat@) == expand_a_spec(sk_rho(skv)),
            forall|r: int, s: int| 0 <= r < 6 && 0 <= s < 5 ==> #[trigger] all_reduced(a_hat@[r]@[s].coeffs@),
            pv(s1_hat@) == vntt(sk_s1(skv)),
            pv(s2_hat@) == vntt(sk_s2(skv)),
            pv(t0_hat@) == vntt(sk_t0(skv)),
        decreases 65535 - kappa,
    {
        if kappa > 65530 {
            return Err(MlDsaError::RejectionLimitReached);
        }
        match sign_attempt_exec(&a_hat, &s1_hat, &s2_hat, &t0_hat, &mu, &rho_pp, kappa, Ghost(skv)) {
            Some(sig) => {
                return Ok(sig);
            },
            None => {
                kappa = kappa + 5;
            },
        }
    }
}

} // verus!

verus! {

// ---------------------------------------------------------------------------
// Verification (Algorithm 8)
// ---------------------------------------------------------------------------

/// The `n` bytes of `src` from offset `off`, into a buffer of N bytes.
pub(crate) fn take_bytes<const M: usize>(src: &[u8], off: usize) -> (r: [u8; M])
    requires
        off + M <= src@.len(),
    ensures
        r@ == src@.subrange(off as int, off + M),
{
    let sl = src.len();
    let mut r = [0u8; M];
    let mut k: usize = 0;
    while k < M
        invariant
            0 <= k <= M,
            off + M <= src@.len(),
            sl == src@.len(),
            r@.len() == M,
            forall|j: int| 0 <= j < k ==> #[trigger] r@[j] == src@[off + j],
        decreases M - k,
    {
        r[k] = src[off + k];
        k += 1;
    }
    assert(r@ =~= src@.subrange(off as int, off + M));
    r
}

/// t1 * 2^d modulo q on every coefficient.
fn shift_t1_vec(t1: &[Poly; K]) -> (r: [Poly; K])
    requires
        forall|i: int, c: int| 0 <= i < 6 && 0 <= c < 256 ==> 0 <= #[trigger] t1@[i]@[c] <= 1023,
    ensures
        pv(r@) == shift_t1(pv(t1@)),
        vec_reduced(r@),
{
    let mut r = *t1;
    let mut i: usize = 0;
    while i < K
        invariant
            0 <= i <= 6,
            r@.len() == 6,
            forall|ii: int, c: int| 0 <= ii < 6 && 0 <= c < 256 ==> 0 <= #[trigger] t1@[ii]@[c] <= 1023,
            forall|ii: int| 0 <= ii < i ==> #[trigger] r@[ii]@ == shift_t1(pv(t1@))[ii],
            forall|ii: int| 0 <= ii < i ==> #[trigger] all_reduced(r@[ii].coeffs@),
        decreases 6 - i,
    {
        let mut p = t1[i];
        let mut j: usize = 0;
        while j < N
            invariant
                0 <= i < 6,
                0 <= j <= 256,
                forall|ii: int, c: int| 0 <= ii < 6 && 0 <= c < 256 ==> 0 <= #[trigger] t1@[ii]@[c] <= 1023,
                forall|c: int| 0 <= c < j ==> #[trigger] p.coeffs@[c] as int
                    == ((t1@[i as int].coeffs@[c] as int) * 8192) % q(),
                forall|c: int| 0 <= c < j ==> 0 <= #[trigger] p.coeffs@[c] < q(),
                forall|c: int| j <= c < 256 ==> #[trigger] p.coeffs@[c] == t1@[i as int].coeffs@[c],
            decreases 256 - j,
        {
            assert(t1@[i as int]@[j as int] == t1@[i as int].coeffs@[j as int] as int);
            let x = p.coeffs[j] as i64;
            p.coeffs[j] = reduce64(x * 8192);
            j += 1;
        }
        r[i] = p;
        assert forall|c: int| 0 <= c < 256 implies #[trigger] p@[c] == shift_t1(pv(t1@))[i as int][c] by {
            assert(p@[c] == p.coeffs@[c] as int);
            assert(t1@[i as int]@[c] == t1@[i as int].coeffs@[c] as int);
        }
        assert(p@ =~= shift_t1(pv(t1@))[i as int]);
        i += 1;
    }
    assert(pv(r@) =~= shift_t1(pv(t1@)));
    r
}

/// UseHint on every coefficient.
fn use_hints_vec(h: &[Poly; K], w: &[Poly; K]) -> (r: [Poly; K])
    ensures
        pv(r@) == use_hints(pv(h@), pv(w@)),
{
    let z = Poly::zero();
    let mut r: [Poly; K] = [z, z, z, z, z, z];
    let mut i: usize = 0;
    while i < K
        invariant
            0 <= i <= 6,
            r@.len() == 6,
            forall|ii: int| 0 <= ii < i ==> #[trigger] r@[ii]@ == use_hints(pv(h@), pv(w@))[ii],
        decreases 6 - i,
    {
        let mut p = Poly::zero();
        let mut j: usize = 0;
        while j < N
            invariant
                0 <= i < 6,
                0 <= j <= 256,
                forall|c: int| 0 <= c < j ==> #[trigger] p.coeffs@[c] as int
                    == use_hint_spec(h@[i as int].coeffs@[c] as int, w@[i as int].coeffs@[c] as int),
            decreases 256 - j,
        {
            p.coeffs[j] = use_hint_coeff(h[i].coeffs[j], w[i].coeffs[j]);
            j += 1;
        }
        r[i] = p;
        assert forall|c: int| 0 <= c < 256 implies #[trigger] p@[c] == use_hints(pv(h@), pv(w@))[i as int][c] by {
            assert(p@[c] == p.coeffs@[c] as int);
            assert(h@[i as int]@[c] == h@[i as int].coeffs@[c] as int);
            assert(w@[i as int]@[c] == w@[i as int].coeffs@[c] as int);
        }
        assert(p@ =~= use_hints(pv(h@), pv(w@))[i as int]);
        i += 1;
    }
    assert(pv(r@) =~= use_hints(pv(h@), pv(w@)));
    r
}

/// Compares two commitment hashes without an early exit: true exactly when
/// they are equal.
fn ct_equal(a: &[u8; 48], b: &[u8; 48]) -> (eq: bool)
    ensures
        eq == (a@ == b@),
{
    let mut diff: u8 = 0;
    let mut i: usize = 0;
    while i < 48
        invariant
            0 <= i <= 48,
            (diff == 0) <==> (forall|k: int| 0 <= k < i ==> #[trigger] a@[k] == b@[k]),
        decreases 48 - i,
    {
        let x = a[i];
        let y = b[i];
        let d = diff | (x ^ y);
        assert((d == 0) <==> (diff == 0 && x == y)) by (bit_vector)
            requires
                d == diff | (x ^ y);
        diff = d;
        i += 1;
    }
    if diff == 0 {
        assert(a@ =~= b@);
    }
    diff == 0
}

/// w'_approx = NTT^-1(A * NTT(z) - NTT(c) * NTT(t1 * 2^d)), reduced modulo q.
#[verifier::rlimit(30)]
fn verify_w_approx(rho: &[u8; 32], z: &[Poly; L], c_hat: &Poly, t1: &[Poly; K]) -> (w: [Poly; K])
    requires
        forall|i: int, c: int| 0 <= i < 5 && 0 <= c < 256 ==> -524287 <= #[trigger] z@[i]@[c] <= 524288,
        forall|i: int, c: int| 0 <= i < 6 && 0 <= c < 256 ==> 0 <= #[trigger] t1@[i]@[c] <= 1023,
    ensures
        pv(w@) == vreduce(vsub(vreduce(vinvntt(matmul_spec(expand_a_spec(rho@), vntt(pv(z@))))),
            vreduce(vinvntt(cmul(c_hat@, vntt(shift_t1(pv(t1@)))))))),
{
    let a_hat = expand_a(rho);
    let mut z_hat = *z;
    proof {
        assert forall|i: int| 0 <= i < 5 implies #[trigger] ntt_input_ok(z_hat@[i].coeffs@) by {
            lemma_small_ntt_ok(z_hat@[i], 524288);
        }
    }
    vecl_ntt(&mut z_hat);
    let mut az = matrix_mul(&a_hat, &z_hat);
    proof {
        assert forall|i: int| 0 <= i < 6 implies #[trigger] invntt_input_ok(az@[i].coeffs@) by {
            lemma_reduced_invntt_ok(az@[i]);
        }
    }
    veck_invntt(&mut az);
    veck_reduce(&mut az);
    let mut t1s = shift_t1_vec(t1);
    proof {
        assert forall|i: int| 0 <= i < 6 implies #[trigger] ntt_input_ok(t1s@[i].coeffs@) by {
            assert(all_reduced(t1s@[i].coeffs@));
            assert forall|c: int| 0 <= c < 256 implies -8380417 <= #[trigger] t1s@[i]@[c] <= 8380417 by {
                assert(t1s@[i]@[c] == t1s@[i].coeffs@[c] as int);
            }
            lemma_small_ntt_ok(t1s@[i], 8380417);
        }
    }
    veck_ntt(&mut t1s);
    let mut ct1 = c_mul_veck(c_hat, &t1s);
    proof {
        assert forall|i: int| 0 <= i < 6 implies #[trigger] invntt_input_ok(ct1@[i].coeffs@) by {
            lemma_reduced_invntt_ok(ct1@[i]);
        }
    }
    veck_invntt(&mut ct1);
    veck_reduce(&mut ct1);
    proof {
        assert forall|i: int| 0 <= i < 6 implies #[trigger] sub_fits(az@[i]@, ct1@[i]@) by {
            assert(all_reduced(az@[i].coeffs@) && all_reduced(ct1@[i].coeffs@));
            assert forall|c: int| 0 <= c < 256 implies i32::MIN <= #[trigger] az@[i]@[c] - ct1@[i]@[c] <= i32::MAX by {
                assert(az@[i]@[c] == az@[i].coeffs@[c] as int);
                assert(ct1@[i]@[c] == ct1@[i].coeffs@[c] as int);
            }
        }
    }
    let mut w = veck_sub(&az, &ct1);
    veck_reduce(&mut w);
    w
}

/// ML-DSA.Verify_internal (Algorithm 8) on the formatted message M'. A
/// malformed hint encoding is an error; otherwise the answer is whether the
/// signature is accepted.
pub fn verify_internal(pk: &[u8; PUBLICKEYBYTES], msg_prime: &[u8], sig: &[u8; SIGNBYTES])
    -> (r: Result<bool, MlDsaError>)
    ensures
        match verify_spec(pk@, msg_prime@, sig@) {
            Some(b) => r == Ok::<bool, MlDsaError>(b),
            None => r == Err::<bool, MlDsaError>(MlDsaError::MalformedSignature),
        },
{
    let rho = take32(pk, 0);
    let t1 = unpack_t1(pk, 32);
    let c_tilde: [u8; 48] = take_bytes(sig, 0);
    let z = unpack_z(sig, 48);
    let hbuf: [u8; 61] = take_bytes(sig, 3248);
    let h = match hint_unpack(&hbuf) {
        None => {
            return Err(MlDsaError::MalformedSignature);
        },
        Some(h) => h,
    };
    if !chknorm_vecl(&z, 524288 - 196) {
        return Ok(false);
    }
    let mut tr = [0u8; TRBYTES];
    shake256(&mut tr, pk);
    let mut mu = [0u8; 64];
    shake256_2(&mut mu, &tr, msg_prime);
    let mut c_hat = sample_in_ball(&c_tilde);
    proof {
        lemma_small_ntt_ok(c_hat, 1);
    }
    c_hat.ntt();
    let w_approx = verify_w_approx(&rho, &z, &c_hat, &t1);
    let w1 = use_hints_vec(&h, &w_approx);
    let w1b = w1_encode(&w1);
    let mut c_check = [0u8; 48];
    shake256_2(&mut c_check, &mu, &w1b);
    proof {
        assert(pv(h@) =~= hint_decode(sig_hint_bytes(sig@))) by {
            assert forall|i: int| 0 <= i < 6 implies #[trigger] pv(h@)[i] =~= hint_decode(sig_hint_bytes(sig@))[i] by {
                assert forall|j: int| 0 <= j < 256 implies #[trigger] pv(h@)[i][j] == hint_decode(sig_hint_bytes(sig@))[i][j] by {
                    assert(h@[i]@[j] == (if hint_listed(hbuf@, i, j) { 1int } else { 0int }));
                }
            }
        }
        assert(c_check@ == verify_challenge(pk@, msg_prime@, sig@));
    }
    Ok(ct_equal(&c_tilde, &c_check))
}

} // verus!

verus! {

// ---------------------------------------------------------------------------
// Errors and randomness
// ---------------------------------------------------------------------------

/// Failures of key generation, signing and verification.
#[derive(Debug, Clone, PartialEq, Eq, Structural)]
pub enum MlDsaError {
    RngFailed,
    InvalidPublicKeyLength,
    InvalidSecretKeyLength,
    InvalidSignatureLength,
    MalformedSignature,
    VerificationFailed,
    RejectionLimitReached,
}

/// The description of each error.
pub open spec fn ml_dsa_error_text(e: MlDsaError) -> Seq<char> {
    match e {
        MlDsaError::RngFailed => "RNG failed"@,
        MlDsaError::InvalidPublicKeyLength => "invalid public key length"@,
        MlDsaError::InvalidSecretKeyLength => "invalid secret key length"@,
        MlDsaError::InvalidSignatureLength => "invalid signature length"@,
        MlDsaError::MalformedSignature => "malformed signature"@,
        MlDsaError::VerificationFailed => "signature verification failed"@,
        MlDsaError::RejectionLimitReached => "signing attempts exhausted"@,
    }
}

impl MlDsaError {
    /// A short description of the error.
    pub fn message(&self) -> (m: &'static str)
        ensures
            m@ == ml_dsa_error_text(*self),
    {
        match self {
            MlDsaError::RngFailed => "RNG failed",
            MlDsaError::InvalidPublicKeyLength => "invalid public key length",
            MlDsaError::InvalidSecretKeyLength => "invalid secret key length",
            MlDsaError::InvalidSignatureLength => "invalid signature length",
            MlDsaError::MalformedSignature => "malformed signature",
            MlDsaError::VerificationFailed => "signature verification failed",
            MlDsaError::RejectionLimitReached => "signing attempts exhausted",
        }
    }
}

#[verifier::external_type_specification]
#[verifier::external_body]
pub struct ExRandCoreError(rand_core::Error);

/// Fills `buf` from the operating system's generator (rand_core::OsRng::try_fill_bytes).
/// Trusted: only that the length of `buf` is kept; the bytes, and whether the
/// call fails, are up to the operating system.
#[verifier::external_body]
fn os_fill_bytes(buf: &mut [u8]) -> (r: Result<(), rand_core::Error>)
    ensures
        final(buf)@.len() == old(buf)@.len(),
{
    rand_core::OsRng.try_fill_bytes(buf)
}

/// `n` random 32-bit words from the operating system, each from four random
/// bytes in little-endian order.
pub(crate) fn random_words(n: usize) -> (r: Result<Vec<u32>, MlDsaError>)
    requires
        n <= 1073741823,
    ensures
        r matches Ok(v) ==> v@.len() == n,
        r is Err ==> r == Err::<Vec<u32>, MlDsaError>(MlDsaError::RngFailed),
{
    let mut buf: Vec<u8> = Vec::new();
    let mut k: usize = 0;
    while k < 4 * n
        invariant
            n <= 1073741823,
            0 <= k <= 4 * n,
            buf@.len() == k,
        decreases 4 * n - k,
    {
        buf.push(0u8);
        k += 1;
    }
    match random_bytes(buf.as_mut_slice()) {
        Err(e) => {
            return Err(e);
        },
        Ok(()) => {},
    }
    let mut words: Vec<u32> = Vec::new();
    let mut i: usize = 0;
    while i < n
        invariant
            0 <= i <= n,
            n <= 1073741823,
            buf@.len() == 4 * n,
            words@.len() == i,
        decreases n - i,
    {
        let w = buf[4 * i] as u32 + (buf[4 * i + 1] as u32) * 256 + (buf[4 * i + 2] as u32) * 65536
            + (buf[4 * i + 3] as u32) * 16777216;
        words.push(w);
        i += 1;
    }
    Ok(words)
}

/// Fills `buf` with random bytes from the operating system.
pub fn random_bytes(buf: &mut [u8]) -> (r: Result<(), MlDsaError>)
    ensures
        final(buf)@.len() == old(buf)@.len(),
        r is Err ==> r == Err::<(), MlDsaError>(MlDsaError::RngFailed),
{
    match os_fill_bytes(buf) {
        Ok(()) => Ok(()),
        Err(_) => Err(MlDsaError::RngFailed),
    }
}

} // verus!

verus! {

// ---------------------------------------------------------------------------
// External interface (Algorithms 1 to 3) with an empty context string
// ---------------------------------------------------------------------------

/// M' = 0 || 0 || msg.
pub(crate) fn format_message(msg: &[u8]) -> (mp: Vec<u8>)
    ensures
        mp@ == formatted_message(msg@),
{
    let mut mp: Vec<u8> = Vec::new();
    mp.push(0u8);
    mp.push(0u8);
    mp.extend_from_slice(msg);
    assert(mp@ =~= formatted_message(msg@));
    mp
}

/// ML-DSA.KeyGen (Algorithm 1): a key pair from a fresh random seed. Fails only
/// when the operating system's generator fails.
pub fn keypair() -> (r: Result<([u8; PUBLICKEYBYTES], [u8; SECRETKEYBYTES]), MlDsaError>)
    ensures
        match r {
            Ok((pk, sk)) => exists|xi: Seq<u8>| xi.len() == 32 && #[trigger] keygen_pk(xi) == pk@
                && keygen_sk(xi) == sk@ && keygen_expansion(xi).len() == 128
                && shake256_output(keygen_pk(xi), 64).len() == 64,
            Err(e) => e == MlDsaError::RngFailed,
        },
{
    let mut xi = [0u8; SEEDBYTES];
    match random_bytes(&mut xi) {
        Err(e) => Err(e),
        Ok(()) => {
            let r = keypair_from_seed(&xi);
            assert(r matches Ok((pk, sk)) && keygen_pk(xi@) == pk@ && keygen_sk(xi@) == sk@
                && keygen_expansion(xi@).len() == 128 && shake256_output(keygen_pk(xi@), 64).len() == 64);
            r
        },
    }
}

/// ML-DSA.Sign (Algorithm 2, hedged): signs msg with 32 fresh random bytes.
/// The result is Sign_internal on M' for some 32-byte rnd, or `RngFailed`.
pub fn sign(sk: &[u8; SECRETKEYBYTES], msg: &[u8]) -> (r: Result<[u8; SIGNBYTES], MlDsaError>)
    ensures
        match r {
            Ok(sig) => exists|rnd: Seq<u8>| rnd.len() == 32
                && #[trigger] sign_spec(sk@, formatted_message(msg@), rnd) == Some(sig@),
            Err(e) => e == MlDsaError::RngFailed || (e == MlDsaError::RejectionLimitReached
                && exists|rnd: Seq<u8>| rnd.len() == 32
                && #[trigger] sign_spec(sk@, formatted_message(msg@), rnd) is None),
        },
{
    let mp = format_message(msg);
    let mut rnd = [0u8; RNDBYTES];
    match random_bytes(&mut rnd) {
        Err(e) => Err(e),
        Ok(()) => {
            let r = sign_internal(sk, mp.as_slice(), &rnd);
            proof {
                let _ = sign_spec(sk@, formatted_message(msg@), rnd@);
            }
            r
        },
    }
}

/// ML-DSA.Sign with rnd = 0^32 (the deterministic variant).
pub fn sign_deterministic(sk: &[u8; SECRETKEYBYTES], msg: &[u8]) -> (r: Result<[u8; SIGNBYTES], MlDsaError>)
    ensures
        match sign_spec(sk@, formatted_message(msg@), Seq::new(32, |i: int| 0u8)) {
            Some(sig) => r matches Ok(s) && s@ == sig,
            None => r == Err::<[u8; SIGNBYTES], MlDsaError>(MlDsaError::RejectionLimitReached),
        },
{
    let mp = format_message(msg);
    let rnd = [0u8; RNDBYTES];
    assert(rnd@ =~= Seq::new(32, |i: int| 0u8));
    sign_internal(sk, mp.as_slice(), &rnd)
}

/// ML-DSA.Verify (Algorithm 3): Verify_internal on M' = 0 || 0 || msg.
pub fn verify(pk: &[u8; PUBLICKEYBYTES], msg: &[u8], sig: &[u8; SIGNBYTES]) -> (r: Result<bool, MlDsaError>)
    ensures
        match verify_spec(pk@, formatted_message(msg@), sig@) {
            Some(b) => r == Ok::<bool, MlDsaError>(b),
            None => r == Err::<bool, MlDsaError>(MlDsaError::MalformedSignature),
        },
{
    let mp = format_message(msg);
    verify_internal(pk, mp.as_slice(), sig)
}

/// ML-DSA-65 under the name of its interface type.
pub struct MlDsa87;

impl MlDsa87 {
    /// Size of a public key in bytes.
    pub const PK_BYTES: usize = 1952;
    /// Size of a secret key in bytes.
    pub const SK_BYTES: usize = 4032;
    /// Size of a signature in bytes.
    pub const SIG_BYTES: usize = 3309;

    /// See [`keypair`].
    pub fn keypair() -> (r: Result<([u8; PUBLICKEYBYTES], [u8; SECRETKEYBYTES]), MlDsaError>)
        ensures
            match r {
                Ok((pk, sk)) => exists|xi: Seq<u8>| xi.len() == 32 && #[trigger] keygen_pk(xi) == pk@
                    && keygen_sk(xi) == sk@ && keygen_expansion(xi).len() == 128
                    && shake256_output(keygen_pk(xi), 64).len() == 64,
                Err(e) => e == MlDsaError::RngFailed,
            },
    {
        keypair()
    }

    /// See [`keypair_from_seed`].
    pub fn keypair_from_seed(xi: &[u8; SEEDBYTES]) -> (r: Result<([u8; PUBLICKEYBYTES], [u8; SECRETKEYBYTES]), MlDsaError>)
        ensures
            r matches Ok((pk, sk)) && pk@ == keygen_pk(xi@) && sk@ == keygen_sk(xi@),
            keygen_expansion(xi@).len() == 128,
            shake256_output(keygen_pk(xi@), 64).len() == 64,
    {
        keypair_from_seed(xi)
    }

    /// See [`sign`].
    pub fn sign(sk: &[u8; SECRETKEYBYTES], msg: &[u8]) -> (r: Result<[u8; SIGNBYTES], MlDsaError>)
        ensures
            match r {
                Ok(sig) => exists|rnd: Seq<u8>| rnd.len() == 32
                    && #[trigger] sign_spec(sk@, formatted_message(msg@), rnd) == Some(sig@),
                Err(e) => e == MlDsaError::RngFailed || (e == MlDsaError::RejectionLimitReached
                    && exists|rnd: Seq<u8>| rnd.len() == 32
                    && #[trigger] sign_spec(sk@, formatted_message(msg@), rnd) is None),
            },
    {
        sign(sk, msg)
    }

    /// See [`sign_deterministic`].
    pub fn sign_deterministic(sk: &[u8; SECRETKEYBYTES], msg: &[u8]) -> (r: Result<[u8; SIGNBYTES], MlDsaError>)
        ensures
            match sign_spec(sk@, formatted_message(msg@), Seq::new(32, |i: int| 0u8)) {
                Some(sig) => r matches Ok(s) && s@ == sig,
                None => r == Err::<[u8; SIGNBYTES], MlDsaError>(MlDsaError::RejectionLimitReached),
            },
    {
        sign_deterministic(sk, msg)
    }

    /// See [`verify`].
    pub fn verify(pk: &[u8; PUBLICKEYBYTES], msg: &[u8], sig: &[u8; SIGNBYTES]) -> (r: Result<bool, MlDsaError>)
        ensures
            match verify_spec(pk@, formatted_message(msg@), sig@) {
                Some(b) => r == Ok::<bool, MlDsaError>(b),
                None => r == Err::<bool, MlDsaError>(MlDsaError::MalformedSignature),
            },
    {
        verify(pk, msg, sig)
    }
}

} // verus!

pub mod masked;
pub mod diagnostic;

pub use MlDsaError as DilithiumError;
pub use MlDsa87 as Dilithium5;
