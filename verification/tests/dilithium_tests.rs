use sirraya_ml_dsa_65::constants::{
    D, GAMMA1, N, POLYETA_PACKEDBYTES, POLYT0_PACKEDBYTES, POLYT1_PACKEDBYTES, POLYZ_PACKEDBYTES, Q, SEEDBYTES,
    SIGNBYTES,
};
use sirraya_ml_dsa_65::dilithium_masked::{keypair_from_seed, sign_internal, verify, verify_internal, MlDsa87, MlDsaError};
use sirraya_ml_dsa_65::hints::{hint_pack, hint_unpack};
use sirraya_ml_dsa_65::packing::{
    polyeta_pack, polyeta_unpack, polyt0_pack, polyt0_unpack, polyt1_pack, polyt1_unpack, polyz_pack, polyz_unpack,
};
use sirraya_ml_dsa_65::polynomial::{decompose, freeze, power2round, shake128, shake256, use_hint_coeff, make_hint_coeff, Poly};
use sirraya_ml_dsa_65::sampling::sample_in_ball;

#[test]
fn ntt_roundtrip_e0() {
    let mut p = Poly::zero();
    p.coeffs[0] = 1;
    let o = p.coeffs;
    p.ntt();
    p.invntt();
    assert_eq!(p.coeffs, o);
}

#[test]
fn ntt_roundtrip_e1() {
    let mut p = Poly::zero();
    p.coeffs[1] = 1;
    let o = p.coeffs;
    p.ntt();
    p.invntt();
    assert_eq!(p.coeffs, o);
}

#[test]
fn ntt_roundtrip_general() {
    let mut p = Poly::zero();
    for i in 0..N {
        p.coeffs[i] = ((i * 37 + 5) % Q as usize) as i32;
    }
    let o = p.coeffs;
    p.ntt();
    p.invntt();
    assert_eq!(p.coeffs, o);
}

#[test]
fn t1_roundtrip() {
    let mut p = Poly::zero();
    for i in 0..N {
        p.coeffs[i] = (i % 1024) as i32;
    }
    let mut b = [0u8; POLYT1_PACKEDBYTES];
    polyt1_pack(&mut b, &p);
    assert_eq!(polyt1_unpack(&b), p);
}

#[test]
fn t0_roundtrip() {
    let half = 1i32 << (D - 1);
    let mut p = Poly::zero();
    for i in 0..N {
        p.coeffs[i] = (i as i32 % (2 * half)) - half + 1;
    }
    let mut b = [0u8; POLYT0_PACKEDBYTES];
    polyt0_pack(&mut b, &p);
    assert_eq!(polyt0_unpack(&b), p);
}

#[test]
fn eta_roundtrip() {
    let mut p = Poly::zero();
    for i in 0..N {
        p.coeffs[i] = ((i % 5) as i32) - 2;
    }
    let mut b = [0u8; POLYETA_PACKEDBYTES];
    polyeta_pack(&mut b, &p);
    assert_eq!(polyeta_unpack(&b), p);
}

#[test]
fn eta_roundtrip_full_range() {
    let mut p = Poly::zero();
    for i in 0..N {
        p.coeffs[i] = ((i % 9) as i32) - 4;
    }
    let mut b = [0u8; POLYETA_PACKEDBYTES];
    polyeta_pack(&mut b, &p);
    assert_eq!(b.len(), 128);
    // Coefficients 0 and 1 are -4 and -3: digits 8 and 7 in one byte.
    assert_eq!(b[0], 8 | (7 << 4));
    assert_eq!(polyeta_unpack(&b), p);
}

#[test]
fn key_and_signature_sizes() {
    assert_eq!(MlDsa87::PK_BYTES, 1952);
    assert_eq!(MlDsa87::SK_BYTES, 4032);
    assert_eq!(MlDsa87::SIG_BYTES, 3309);
    let (pk, sk) = MlDsa87::keypair().unwrap();
    assert_eq!(pk.len(), 1952);
    assert_eq!(sk.len(), 4032);
    let sig = MlDsa87::sign(&sk, b"sizes").unwrap();
    assert_eq!(sig.len(), 3309);
}

#[test]
fn z_roundtrip() {
    let mut p = Poly::zero();
    for i in 0..N {
        p.coeffs[i] = (i as i32 % (2 * GAMMA1)) - GAMMA1 + 1;
    }
    let mut b = [0u8; POLYZ_PACKEDBYTES];
    polyz_pack(&mut b, &p);
    assert_eq!(polyz_unpack(&b), p);
}

#[test]
fn deterministic_keygen() {
    let s = [42u8; SEEDBYTES];
    let (p1, s1) = MlDsa87::keypair_from_seed(&s).unwrap();
    let (p2, s2) = MlDsa87::keypair_from_seed(&s).unwrap();
    assert_eq!(p1, p2);
    assert_eq!(&s1[..], &s2[..]);
}

#[test]
fn sign_verify() {
    let (pk, sk) = MlDsa87::keypair().unwrap();
    let msg = b"test";
    let sig = MlDsa87::sign(&sk, msg).unwrap();
    assert!(MlDsa87::verify(&pk, msg, &sig).unwrap());
}

#[test]
fn sign_verify_deterministic() {
    let (pk, sk) = MlDsa87::keypair().unwrap();
    let msg = b"deterministic test";
    let sig = MlDsa87::sign_deterministic(&sk, msg).unwrap();
    assert!(MlDsa87::verify(&pk, msg, &sig).unwrap());
}

#[test]
fn reject_wrong_msg() {
    let (pk, sk) = MlDsa87::keypair().unwrap();
    let sig = MlDsa87::sign(&sk, b"a").unwrap();
    assert!(!MlDsa87::verify(&pk, b"b", &sig).unwrap());
}

#[test]
fn reject_tampered_sig() {
    let (pk, sk) = MlDsa87::keypair().unwrap();
    let mut sig = MlDsa87::sign(&sk, b"m").unwrap();
    sig[42] ^= 0xFF;
    match MlDsa87::verify(&pk, b"m", &sig) {
        Ok(v) => assert!(!v),
        Err(_) => {}
    }
}

#[test]
fn many_roundtrips() {
    let (pk, sk) = MlDsa87::keypair().unwrap();
    for i in 0u32..10 {
        let m = i.to_le_bytes();
        let s = MlDsa87::sign(&sk, &m).unwrap();
        assert!(MlDsa87::verify(&pk, &m, &s).unwrap());
    }
}

// ---------------------------------------------------------------------------
// Further checks of the contracts on concrete values
// ---------------------------------------------------------------------------

#[test]
fn shake_known_answers() {
    let mut out = [0u8; 4];
    shake256(&mut out, b"");
    assert_eq!(out, [0x46, 0xb9, 0xdd, 0x2b]);
    let mut out = [0u8; 4];
    shake128(&mut out, b"");
    assert_eq!(out, [0x7f, 0x9c, 0x2b, 0xa4]);
}

#[test]
fn keys_agree_on_rho_and_tr() {
    let seed = [7u8; SEEDBYTES];
    let (pk, sk) = keypair_from_seed(&seed).unwrap();
    assert_eq!(&pk[..32], &sk[..32]);
    let mut tr = [0u8; 64];
    shake256(&mut tr, &pk);
    assert_eq!(&sk[64..128], &tr[..]);
}

#[test]
fn different_seeds_give_different_keys() {
    let (p1, _) = keypair_from_seed(&[1u8; SEEDBYTES]).unwrap();
    let (p2, _) = keypair_from_seed(&[2u8; SEEDBYTES]).unwrap();
    assert_ne!(p1, p2);
}

#[test]
fn deterministic_signature_is_reproducible() {
    let (pk, sk) = keypair_from_seed(&[3u8; SEEDBYTES]).unwrap();
    let a = MlDsa87::sign_deterministic(&sk, b"same").unwrap();
    let b = MlDsa87::sign_deterministic(&sk, b"same").unwrap();
    assert_eq!(&a[..], &b[..]);
    assert!(verify(&pk, b"same", &a).unwrap());
}

#[test]
fn sign_internal_with_zero_rnd_matches_deterministic() {
    let (_pk, sk) = keypair_from_seed(&[4u8; SEEDBYTES]).unwrap();
    let mut mp = vec![0u8, 0u8];
    mp.extend_from_slice(b"msg");
    let a = sign_internal(&sk, &mp, &[0u8; 32]).unwrap();
    let b = MlDsa87::sign_deterministic(&sk, b"msg").unwrap();
    assert_eq!(&a[..], &b[..]);
}

#[test]
fn malformed_hints_are_an_error() {
    let (pk, sk) = keypair_from_seed(&[5u8; SEEDBYTES]).unwrap();
    let mut sig = MlDsa87::sign_deterministic(&sk, b"x").unwrap();
    // A cumulative hint count above OMEGA is not a valid encoding.
    sig[SIGNBYTES - 1] = 200;
    assert_eq!(verify(&pk, b"x", &sig), Err(MlDsaError::MalformedSignature));
    let mut mp = vec![0u8, 0u8];
    mp.extend_from_slice(b"x");
    assert_eq!(verify_internal(&pk, &mp, &sig), Err(MlDsaError::MalformedSignature));
}

#[test]
fn oversized_response_is_rejected() {
    let (pk, sk) = keypair_from_seed(&[6u8; SEEDBYTES]).unwrap();
    let mut sig = MlDsa87::sign_deterministic(&sk, b"z").unwrap();
    // All-zero z bytes unpack to gamma1, outside the bound gamma1 - beta.
    for b in sig[48..48 + 3200].iter_mut() {
        *b = 0;
    }
    assert_eq!(verify(&pk, b"z", &sig), Ok(false));
}

#[test]
fn hint_roundtrip() {
    let mut h = [Poly::zero(); 6];
    h[0].coeffs[3] = 1;
    h[0].coeffs[200] = 1;
    h[2].coeffs[0] = 1;
    h[5].coeffs[255] = 1;
    let mut buf = [0u8; 61];
    assert_eq!(hint_pack(&h, &mut buf), Some(4));
    assert_eq!(&buf[..4], &[3, 200, 0, 255]);
    assert_eq!(&buf[55..], &[2, 2, 3, 3, 3, 4]);
    assert_eq!(hint_unpack(&buf), Some(h));
}

#[test]
fn too_many_hints_do_not_pack() {
    let mut h = [Poly::zero(); 6];
    for j in 0..56 {
        h[1].coeffs[j] = 1;
    }
    let mut buf = [0u8; 61];
    assert_eq!(hint_pack(&h, &mut buf), None);
}

#[test]
fn rounding_known_values() {
    assert_eq!(freeze(-1), Q - 1);
    assert_eq!(power2round(8192 + 5), (1, 5));
    assert_eq!(power2round(Q - 1), (1023, 0));
    assert_eq!(power2round(4096 + 8192), (1, 4096));
    assert_eq!(power2round(4097), (1, -4095));
    assert_eq!(decompose(Q - 1), (0, -1));
    assert_eq!(decompose(2 * 261888 + 7), (1, 7));
    assert_eq!(use_hint_coeff(1, 2 * 261888 + 7), 2);
    assert_eq!(use_hint_coeff(0, 2 * 261888 + 7), 1);
    assert_eq!(make_hint_coeff(0, 100), 0);
}

#[test]
fn error_messages() {
    assert_eq!(MlDsaError::RngFailed.message(), "RNG failed");
    assert_eq!(MlDsaError::MalformedSignature.message(), "malformed signature");
}

#[test]
fn use_hint_recovers_the_high_bits_of_r_plus_z() {
    let gamma2: i32 = 261888;
    let cases: [(i32, i32); 8] = [
        (5, 100),
        (-5, 100),
        (gamma2 - 1, 2 * gamma2 + 7),
        (-(gamma2 - 1), 2 * gamma2 + 7),
        (gamma2 - 1, Q - 2),
        (-(gamma2 - 1), 3),
        (1000, gamma2),
        (-1000, gamma2 + 1),
    ];
    for (z, r) in cases {
        let h = make_hint_coeff(z, r);
        assert_eq!(use_hint_coeff(h, r), decompose(freeze(r + z)).0, "z = {z}, r = {r}");
    }
}

#[test]
fn small_offsets_keep_the_high_bits() {
    let gamma2: i32 = 261888;
    let w = 3 * 2 * gamma2 + 1000;
    for d in [-196, -1, 0, 1, 196] {
        assert_eq!(decompose(freeze(w + d)).0, decompose(w).0);
    }
    assert_eq!(decompose(freeze(Q - 1 + 196)).0, decompose(Q - 1).0);
}

#[test]
fn ntt_undoes_the_inverse_transform() {
    let mut p = Poly::zero();
    for i in 0..N {
        p.coeffs[i] = ((i * 7919 + 11) % Q as usize) as i32;
    }
    let o = p.coeffs;
    p.invntt();
    p.reduce();
    p.ntt();
    p.reduce();
    assert_eq!(p.coeffs, o);
}

#[test]
fn ntt_products_are_products_modulo_x256_plus_1() {
    let mut a = Poly::zero();
    let mut b = Poly::zero();
    for i in 0..N {
        a.coeffs[i] = ((i * 31 + 7) % 11) as i32 - 5;
        b.coeffs[i] = ((i * 17 + 3) % 5) as i32 - 2;
    }
    // schoolbook product in Z[X] / (X^256 + 1)
    let mut expected = [0i64; 256];
    for i in 0..N {
        for j in 0..N {
            let t = a.coeffs[i] as i64 * b.coeffs[j] as i64;
            if i + j < N {
                expected[i + j] += t;
            } else {
                expected[i + j - N] -= t;
            }
        }
    }
    let mut ah = a.clone();
    let mut bh = b.clone();
    ah.ntt();
    bh.ntt();
    let mut p = ah.pointwise_mul(&bh);
    p.invntt();
    for k in 0..N {
        assert_eq!(p.coeffs[k] as i64, expected[k].rem_euclid(Q as i64), "coefficient {k}");
    }
}

#[test]
fn sample_in_ball_has_tau_nonzero_coefficients() {
    for seed in 0u8..8 {
        let c_tilde = [seed; 48];
        let c = sample_in_ball(&c_tilde);
        let nonzero = c.coeffs.iter().filter(|&&x| x != 0).count();
        assert_eq!(nonzero, 49);
        assert!(c.coeffs.iter().all(|&x| x == -1 || x == 0 || x == 1));
    }
}

#[test]
fn well_formed_hint_buffers_re_encode_to_themselves() {
    let mut buf = [0u8; 61];
    // polynomial 0: positions 3, 17; polynomial 2: position 255; polynomial 5: 0, 1
    buf[0] = 3;
    buf[1] = 17;
    buf[2] = 255;
    buf[3] = 0;
    buf[4] = 1;
    buf[55] = 2;
    buf[56] = 2;
    buf[57] = 3;
    buf[58] = 3;
    buf[59] = 3;
    buf[60] = 5;
    let h = hint_unpack(&buf).unwrap();
    let mut again = [0u8; 61];
    assert!(hint_pack(&h, &mut again).is_some());
    assert_eq!(again, buf);
}
