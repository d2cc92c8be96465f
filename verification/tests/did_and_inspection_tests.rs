use sirraya_ml_dsa_65::constants::{Q, SIGNBYTES};
use sirraya_ml_dsa_65::dilithium_masked::diagnostic::{
    count_nonzero, decode_public_key, decode_secret_key, decode_signature, lattice_mismatches, lattice_t, relation_holds,
};
use sirraya_ml_dsa_65::dilithium_masked::{keypair_from_seed, sign_deterministic};
use sirraya_ml_dsa_65::polynomial::Poly;
use sirraya_ml_dsa_65::rdfc::sha256_hex_string;
use sirraya_ml_dsa_65::vc_verifier::{
    canonicalize_proof_config, create_did, extract_pk_from_did, extract_public_key_from_did_key, JsonValue,
};

#[test]
fn create_did_then_extract_gives_the_key_back() {
    let (pk, _sk) = keypair_from_seed(&[5u8; 32]).unwrap();
    let did = create_did(&hex::encode(pk));
    assert!(did.starts_with("did:key:z"));
    assert_eq!(extract_public_key_from_did_key(&did).unwrap(), pk);
    assert_eq!(extract_pk_from_did(&did), hex::encode(pk));
    assert_eq!(extract_pk_from_did(&format!("{}#key-1", did)), hex::encode(pk));
}

#[test]
fn create_did_encodes_the_multicodec_prefix() {
    let mut bytes = vec![0x13u8, 0x05u8, 0xab, 0xcd];
    assert_eq!(create_did("ABcd"), format!("did:key:z{}", bs58::encode(&bytes).into_string()));
    bytes.truncate(2);
    // text that is not hexadecimal contributes no key bytes
    assert_eq!(create_did("xyz"), format!("did:key:z{}", bs58::encode(&bytes).into_string()));
}

#[test]
fn extract_pk_from_did_without_prefix_or_key_is_empty() {
    assert_eq!(extract_pk_from_did("did:web:example.com"), "");
    assert_eq!(extract_pk_from_did("did:key:z"), "");
    assert_eq!(extract_pk_from_did("did:key:z0OIl"), "");
    // three bytes: the key is the third
    let did = format!("did:key:z{}", bs58::encode([1u8, 2, 0xfe]).into_string());
    assert_eq!(extract_pk_from_did(&did), "fe");
}

#[test]
fn proof_config_drops_the_proof_value() {
    let proof = JsonValue::Object(vec![
        ("type".to_string(), JsonValue::String("DataIntegrityProof".to_string())),
        ("proofValue".to_string(), JsonValue::String("zzz".to_string())),
        ("cryptosuite".to_string(), JsonValue::String("mldsa65-rdfc-2024".to_string())),
    ]);
    assert_eq!(
        canonicalize_proof_config(&proof).unwrap(),
        "{\"cryptosuite\":\"mldsa65-rdfc-2024\",\"type\":\"DataIntegrityProof\"}"
    );
}

#[test]
fn sha256_of_text() {
    assert_eq!(sha256_hex_string("abc"), "ba7816bf8f01cfea414140de5dae2223b00361a396177a9cb410ff61f20015ad");
}

#[test]
fn decoded_key_parts_satisfy_the_lattice_relation() {
    let (pk, sk) = keypair_from_seed(&[7u8; 32]).unwrap();
    let (rho, t1) = decode_public_key(&pk);
    let (rho_sk, _k, _tr, s1, _s2, t0) = decode_secret_key(&sk);
    assert_eq!(rho, rho_sk);
    assert!(s1.iter().all(|p| p.coeffs.iter().all(|&c| (-4..=4).contains(&c))));
    let t = lattice_t(&sk);
    for i in 0..6 {
        for j in 0..256 {
            assert!(relation_holds(t1[i].coeffs[j], t0[i].coeffs[j], t[i].coeffs[j]));
        }
    }
}

#[test]
fn generated_keys_have_no_lattice_mismatch() {
    let (pk, sk) = keypair_from_seed(&[7u8; 32]).unwrap();
    assert!(lattice_mismatches(&pk, &sk).is_empty());
    let (pk2, _sk2) = keypair_from_seed(&[8u8; 32]).unwrap();
    let m = lattice_mismatches(&pk2, &sk);
    assert!(!m.is_empty());
    assert!(m.iter().all(|&(i, j)| i < 3 && j < 3));
}

#[test]
fn relation_holds_up_to_one_multiple_of_q() {
    assert!(relation_holds(1, -5, 8192 - 5));
    assert!(relation_holds(1, -5, 8192 - 5 - Q));
    assert!(relation_holds(1, -5, 8192 - 5 + Q));
    assert!(!relation_holds(1, -5, 8192 - 4));
}

#[test]
fn decoded_signature_parts() {
    let (_pk, sk) = keypair_from_seed(&[8u8; 32]).unwrap();
    let sig = sign_deterministic(&sk, b"inspect me").unwrap();
    let (c_tilde, z, h) = decode_signature(&sig);
    assert_eq!(&c_tilde[..], &sig[..48]);
    assert!(z.iter().all(|p| p.coeffs.iter().all(|&c| c.abs() < (1 << 19))));
    let h = h.expect("a produced signature has well-formed hints");
    assert!(count_nonzero(&h) <= 55);
    let mut bad = sig;
    bad[SIGNBYTES - 1] = 200;
    assert!(decode_signature(&bad).2.is_none());
}

#[test]
fn count_nonzero_counts_every_polynomial() {
    let mut a = Poly::zero();
    let mut b = Poly::zero();
    a.coeffs[0] = 1;
    a.coeffs[255] = -3;
    b.coeffs[17] = 9;
    assert_eq!(count_nonzero(&[a, b]), 3);
    assert_eq!(count_nonzero(&[]), 0);
}
