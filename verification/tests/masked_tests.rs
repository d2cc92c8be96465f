use rand_core::{OsRng, RngCore};
use sirraya_ml_dsa_65::constants::{N, Q};
use sirraya_ml_dsa_65::dilithium_masked::masked::{
    clone_masked_vec_l, masked_sign, masked_sign_internal, zero_masked_vec_k, ATTEMPT_WORDS, zero_masked_vec_l, MaskedCoeff, MaskedMatrix, MaskedPoly,
    MaskedSecretKey, SucreGadget,
};
use sirraya_ml_dsa_65::dilithium_masked::{keypair, keypair_from_seed, sign_internal, verify, MlDsaError};
use sirraya_ml_dsa_65::polynomial::Poly;

fn draws(n: usize) -> Vec<u32> {
    let mut rng = OsRng;
    (0..n).map(|_| rng.next_u32()).collect()
}

fn value(c: &MaskedCoeff) -> i32 {
    (c.share_0 + c.share_1).rem_euclid(Q)
}

fn reconstruct(p: &MaskedPoly) -> Poly {
    p.secure_reconstruct().consume()
}

#[test]
fn masked_sign_verify() {
    let (pk, sk) = keypair().unwrap();
    let masked_sk = MaskedSecretKey::from_plain(&sk, &draws(4352)).unwrap();
    let msg = b"Masked ML-DSA test message";
    let sig = masked_sign(&masked_sk, msg).unwrap();
    assert!(verify(&pk, msg, &sig).unwrap());
}

#[test]
fn masked_coeff_splits_and_recombines() {
    let c = MaskedCoeff::new(-5, 123456789);
    assert_eq!(c.share_0, (123456789 % Q as u32) as i32);
    assert_eq!(c.share_1, (-5 - c.share_0).rem_euclid(Q));
    assert_eq!(value(&c), Q - 5);
    let d = MaskedCoeff::new(7, 4000000000);
    assert_eq!(value(&c.add(&d)), 2);
    assert_eq!(value(&d.sub(&c)), 12);
    assert_eq!(value(&d.mul_public(3)), 21);
}

#[test]
fn masked_coeff_zeroize_clears_both_shares() {
    let mut c = MaskedCoeff::new(42, 99);
    c.zeroize();
    assert_eq!((c.share_0, c.share_1), (0, 0));
}

#[test]
fn masked_mul_public_uses_truncated_remainder() {
    let c = MaskedCoeff { share_0: -3, share_1: 5 };
    let m = c.mul_public(Q - 1);
    assert_eq!(m.share_0, ((-3i64 * (Q - 1) as i64) % Q as i64) as i32);
    assert!(m.share_0 < 0);
    assert_eq!(value(&m), (2i64 * (Q - 1) as i64).rem_euclid(Q as i64) as i32);
}

#[test]
fn masked_poly_reconstructs_its_plain_polynomial() {
    let mut plain = Poly::zero();
    for i in 0..N {
        plain.coeffs[i] = (i as i32) - 100;
    }
    let m = MaskedPoly::new(&plain, &draws(N));
    let r = reconstruct(&m);
    for i in 0..N {
        assert_eq!(r.coeffs[i], plain.coeffs[i].rem_euclid(Q));
    }
}

#[test]
fn masked_ntt_matches_plain_ntt() {
    let mut plain = Poly::zero();
    for i in 0..N {
        plain.coeffs[i] = ((i * 37 + 5) % Q as usize) as i32;
    }
    let mut m = MaskedPoly::new(&plain, &draws(N));
    m.ntt();
    let mut p = plain;
    p.ntt();
    assert_eq!(reconstruct(&m), p);
    m.invntt();
    assert_eq!(reconstruct(&m), plain);
}

#[test]
fn masked_arithmetic_matches_plain_arithmetic() {
    let mut a = Poly::zero();
    let mut b = Poly::zero();
    for i in 0..N {
        a.coeffs[i] = (i * 3) as i32;
        b.coeffs[i] = (Q - 1) - i as i32;
    }
    let ma = MaskedPoly::new(&a, &draws(N));
    let mb = MaskedPoly::new(&b, &draws(N));
    assert_eq!(reconstruct(&ma.add(&mb)), a.add(&b));
    assert_eq!(reconstruct(&ma.sub(&mb)), a.sub(&b));
    assert_eq!(reconstruct(&ma.mul_public(&b)), a.pointwise_mul(&b));
}

#[test]
fn zero_vectors_and_copies() {
    let z = zero_masked_vec_l();
    assert!(z.iter().all(|p| p.coeffs.iter().all(|c| c.share_0 == 0 && c.share_1 == 0)));
    let k = zero_masked_vec_k();
    assert_eq!(k.len(), 6);
    let c = clone_masked_vec_l(&z);
    assert!(c.iter().all(|p| p.coeffs.iter().all(|x| x.share_0 == 0 && x.share_1 == 0)));
}

#[test]
fn masked_matrix_times_vector() {
    let mut one = Poly::zero();
    for i in 0..N {
        one.coeffs[i] = 2;
    }
    let a = [[one; 5]; 6];
    let m = MaskedMatrix::from_public(&a);
    assert_eq!(m.rows[3][4].coeffs[7].share_0, 2);
    assert_eq!(m.rows[3][4].coeffs[7].share_1, 0);
    let mut v = zero_masked_vec_l();
    for j in 0..5 {
        let mut p = Poly::zero();
        for i in 0..N {
            p.coeffs[i] = (j + 1) as i32;
        }
        v[j] = MaskedPoly::new(&p, &draws(N));
    }
    let w = m.mul_vec(&v);
    // 2 * (1 + 2 + 3 + 4 + 5) = 30 in every coefficient of every row
    for i in 0..6 {
        let r = reconstruct(&w[i]);
        assert!(r.coeffs.iter().all(|&c| c == 30));
    }
}

#[test]
fn sucre_norm_check_ignores_the_order() {
    let g = SucreGadget::new(&draws(2814));
    let mut v = zero_masked_vec_l();
    assert!(g.check_norm_inf(&v, 1));
    assert!(!g.check_norm_inf(&v, 0));
    let mut p = Poly::zero();
    p.coeffs[200] = Q - 10; // centred value -10
    v[3] = MaskedPoly::new(&p, &draws(N));
    assert!(g.check_norm_inf(&v, 11));
    assert!(!g.check_norm_inf(&v, 10));
    let k = zero_masked_vec_k();
    assert!(g.check_norm_inf_k(&k, 1));
}

#[test]
fn from_plain_masks_with_the_given_words() {
    let (_pk, sk) = keypair_from_seed(&[9u8; 32]).unwrap();
    let words: Vec<u32> = (0..4352u32).collect();
    let key = MaskedSecretKey::from_plain(&sk, &words).unwrap();
    assert_eq!(&key.rho[..], &sk[0..32]);
    assert_eq!(&key.k[..], &sk[32..64]);
    assert_eq!(&key.tr[..], &sk[64..128]);
    assert_eq!(key.s1[1].coeffs[3].share_0, 259);
    assert_eq!(key.s2[0].coeffs[0].share_0, 1280);
    assert_eq!(key.t0[0].coeffs[0].share_0, 1536);
    assert_eq!(key.s2[1].coeffs[0].share_0, 1792);
}

#[test]
fn masked_key_zeroize() {
    let (_pk, sk) = keypair_from_seed(&[1u8; 32]).unwrap();
    let mut key = MaskedSecretKey::from_plain(&sk, &draws(4352)).unwrap();
    key.zeroize();
    assert!(key.rho.iter().all(|&b| b == 0));
    assert!(key.s1.iter().all(|p| p.coeffs.iter().all(|c| c.share_0 == 0 && c.share_1 == 0)));
}

#[test]
fn masked_signature_verifies_and_differs_from_message() {
    let (pk, sk) = keypair_from_seed(&[3u8; 32]).unwrap();
    let key = MaskedSecretKey::from_plain(&sk, &draws(4352)).unwrap();
    let sig = masked_sign(&key, b"hello").unwrap();
    assert!(verify(&pk, b"hello", &sig).unwrap());
    assert!(!verify(&pk, b"hellp", &sig).unwrap());
    // a plain signature of the same message with fixed randomness verifies too
    let plain = sign_internal(&sk, &[0u8, 0u8, b'h', b'e', b'l', b'l', b'o'], &[0u8; 32]).unwrap();
    assert!(verify(&pk, b"hello", &plain).unwrap());
    let _ = MlDsaError::RngFailed;
}

#[test]
fn masked_sign_internal_gives_the_plain_signature() {
    let seed = [9u8; 32];
    let (pk, sk) = keypair_from_seed(&seed).unwrap();
    let masked_sk = MaskedSecretKey::from_plain(&sk, &draws(4352)).unwrap();
    let msg = b"masked and plain agree";
    let rnd = [3u8; 32];
    let sig = masked_sign_internal(&masked_sk, msg, &rnd, |_kappa: u16| Ok(draws(ATTEMPT_WORDS))).unwrap();
    let mut mp = vec![0u8, 0u8];
    mp.extend_from_slice(msg);
    let plain = sign_internal(&sk, &mp, &rnd).unwrap();
    assert_eq!(sig, plain);
    assert!(verify(&pk, msg, &sig).unwrap());
}

#[test]
fn masked_sign_internal_passes_on_draw_errors() {
    let (_pk, sk) = keypair_from_seed(&[4u8; 32]).unwrap();
    let masked_sk = MaskedSecretKey::from_plain(&sk, &draws(4352)).unwrap();
    let r = masked_sign_internal(&masked_sk, b"m", &[0u8; 32], |_kappa: u16| Err(MlDsaError::RngFailed));
    assert_eq!(r, Err(MlDsaError::RngFailed));
}

#[test]
fn reconstruct_consumed_hands_out_the_value() {
    let mut plain = Poly::zero();
    for i in 0..N {
        plain.coeffs[i] = (i as i32 * 7919) % Q;
    }
    let m = MaskedPoly::new(&plain, &draws(N));
    let seen = std::cell::Cell::new(Poly::zero());
    m.reconstruct_consumed(|p: &mut Poly| {
        seen.set(*p);
        p.coeffs[0] = 1;
    });
    assert_eq!(seen.get(), plain);
}
