use base64::Engine;
use sirraya_ml_dsa_65::constants::SEEDBYTES;
use sirraya_ml_dsa_65::dilithium_masked::{keypair_from_seed, sign_deterministic, MlDsa87};
use sirraya_ml_dsa_65::polynomial::shake256;
use sirraya_ml_dsa_65::vc_verifier::{
    canonicalize_json_jcs, canonicalize_vc, construct_verification_message, extract_public_key_from_did_key, proof_message,
    sign_vc_proof_hex, verify_hex, verify_vc, verify_vc_proof_hex, JsonValue, VcError,
};

fn s(x: &str) -> JsonValue {
    JsonValue::String(x.to_string())
}

fn obj(members: Vec<(&str, JsonValue)>) -> JsonValue {
    JsonValue::Object(members.into_iter().map(|(k, v)| (k.to_string(), v)).collect())
}

fn did_for(pk: &[u8]) -> String {
    let mut bytes = vec![0x13u8, 0x05u8];
    bytes.extend_from_slice(pk);
    format!("did:key:z{}", bs58::encode(&bytes).into_string())
}

#[test]
fn did_key_roundtrip() {
    let (pk, _sk) = keypair_from_seed(&[9u8; SEEDBYTES]).unwrap();
    let did = did_for(&pk);
    assert_eq!(extract_public_key_from_did_key(&did).unwrap(), pk);
}

#[test]
fn did_key_errors() {
    assert_eq!(extract_public_key_from_did_key("did:web:x"), Err(VcError::InvalidDidKey));
    assert_eq!(extract_public_key_from_did_key("did:key:z0OIl"), Err(VcError::Base58Decode));
    let short = format!("did:key:z{}", bs58::encode(&[0x13u8]).into_string());
    assert_eq!(extract_public_key_from_did_key(&short), Err(VcError::InvalidMulticodecLength));
    let wrong = format!("did:key:z{}", bs58::encode(&[0xedu8, 0x01, 1, 2, 3]).into_string());
    assert_eq!(extract_public_key_from_did_key(&wrong), Err(VcError::WrongMulticodec));
    let bad_len = format!("did:key:z{}", bs58::encode(&[0x13u8, 0x05, 1, 2, 3]).into_string());
    assert_eq!(extract_public_key_from_did_key(&bad_len), Err(VcError::InvalidPublicKeyLength));
}

#[test]
fn jcs_sorts_keys_and_escapes_strings() {
    let v = obj(vec![
        ("b", JsonValue::Array(vec![JsonValue::Null, JsonValue::Bool(true), JsonValue::Number("1.5".to_string())])),
        ("a", s("x\"y")),
        ("c", obj(vec![("z", JsonValue::Bool(false)), ("y", s("\n"))])),
    ]);
    assert_eq!(canonicalize_json_jcs(&v).unwrap(), "{\"a\":\"x\\\"y\",\"b\":[null,true,1.5],\"c\":{\"y\":\"\\n\",\"z\":false}}");
}

#[test]
fn canonicalize_vc_drops_the_proof() {
    let vc = obj(vec![("proof", s("p")), ("id", s("urn:x"))]);
    assert_eq!(canonicalize_vc(&vc).unwrap(), "{\"id\":\"urn:x\"}");
}

fn signed_credential(tamper: bool) -> JsonValue {
    let (pk, sk) = keypair_from_seed(&[11u8; SEEDBYTES]).unwrap();
    let did = did_for(&pk);
    let config = obj(vec![
        ("type", s("DataIntegrityProof")),
        ("cryptosuite", s("mldsa65-rdfc-2024")),
        ("verificationMethod", s(&did)),
    ]);
    let unsigned = obj(vec![("id", s("urn:cred:1")), ("issuer", s(&did))]);
    let doc = canonicalize_vc(&unsigned).unwrap();
    let msg = construct_verification_message(&doc, &config).unwrap();
    let sig = MlDsa87::sign(&sk, &msg).unwrap();
    let proof_value = base64::engine::general_purpose::URL_SAFE_NO_PAD.encode(&sig[..]);
    let proof = obj(vec![
        ("type", s("DataIntegrityProof")),
        ("cryptosuite", s("mldsa65-rdfc-2024")),
        ("verificationMethod", s(&did)),
        ("proofValue", s(&proof_value)),
    ]);
    let id = if tamper { "urn:cred:2" } else { "urn:cred:1" };
    obj(vec![("id", s(id)), ("issuer", s(&did)), ("proof", proof)])
}

#[test]
fn verify_signed_credential() {
    assert_eq!(verify_vc(&signed_credential(false)), Ok(true));
    assert_eq!(verify_vc(&signed_credential(true)), Ok(false));
}

#[test]
fn verify_vc_errors() {
    assert_eq!(verify_vc(&obj(vec![("id", s("x"))])), Err(VcError::NoProof));
    assert_eq!(verify_vc(&obj(vec![("proof", obj(vec![]))])), Err(VcError::MissingCryptosuite));
    assert_eq!(
        verify_vc(&obj(vec![("proof", obj(vec![("cryptosuite", s("eddsa-2022"))]))])),
        Err(VcError::UnsupportedCryptosuite)
    );
    assert_eq!(
        verify_vc(&obj(vec![("proof", obj(vec![("cryptosuite", s("mldsa65-rdfc-2024"))]))])),
        Err(VcError::MissingVerificationMethod)
    );
    let (pk, _) = keypair_from_seed(&[12u8; SEEDBYTES]).unwrap();
    let did = did_for(&pk);
    let no_value = obj(vec![(
        "proof",
        obj(vec![("cryptosuite", s("mldsa65-rdfc-2024")), ("verificationMethod", s(&did))]),
    )]);
    assert_eq!(verify_vc(&no_value), Err(VcError::MissingProofValue));
    let bad_b64 = obj(vec![(
        "proof",
        obj(vec![
            ("cryptosuite", s("mldsa65-rdfc-2024")),
            ("verificationMethod", s(&did)),
            ("proofValue", s("***")),
        ]),
    )]);
    assert_eq!(verify_vc(&bad_b64), Err(VcError::Base64Decode));
    let short = obj(vec![(
        "proof",
        obj(vec![
            ("cryptosuite", s("mldsa65-rdfc-2024")),
            ("verificationMethod", s(&did)),
            ("proofValue", s("AAAA")),
        ]),
    )]);
    assert_eq!(verify_vc(&short), Err(VcError::InvalidSignatureLength));
    let bad_did = obj(vec![(
        "proof",
        obj(vec![("cryptosuite", s("mldsa65-rdfc-2024")), ("verificationMethod", s("did:web:x"))]),
    )]);
    assert_eq!(verify_vc(&bad_did), Err(VcError::InvalidDidKey));
}

#[test]
fn hex_keys_and_signatures_verify() {
    let (pk, sk) = keypair_from_seed(&[5u8; 32]).unwrap();
    let sig = sign_deterministic(&sk, b"hex message").unwrap();
    let pk_hex = hex::encode(pk);
    let sig_hex = hex::encode(sig);
    assert_eq!(verify_hex(&pk_hex, b"hex message", &sig_hex), Ok(true));
    assert_eq!(verify_hex(&pk_hex, b"other message", &sig_hex), Ok(false));
    assert_eq!(verify_hex("zz", b"hex message", &sig_hex), Err(VcError::InvalidPublicKeyLength));
    assert_eq!(verify_hex("00", b"hex message", &sig_hex), Err(VcError::InvalidPublicKeyLength));
    assert_eq!(verify_hex(&pk_hex, b"hex message", "0011"), Err(VcError::InvalidSignatureLength));
}

#[test]
fn proof_message_is_shake256_of_both_texts() {
    let m = proof_message("{\"a\":1}", "{\"b\":2}");
    let mut expected = [0u8; 64];
    shake256(&mut expected, b"{\"a\":1}{\"b\":2}");
    assert_eq!(m, expected);
}

#[test]
fn hex_proof_signatures_verify() {
    let (pk, sk) = keypair_from_seed(&[6u8; 32]).unwrap();
    let sig_hex = sign_vc_proof_hex(&hex::encode(sk), "{\"vc\":1}", "{\"p\":2}").unwrap();
    assert_eq!(verify_vc_proof_hex(&hex::encode(pk), "{\"vc\":1}", "{\"p\":2}", &sig_hex), Ok(true));
    assert_eq!(verify_vc_proof_hex(&hex::encode(pk), "{\"vc\":2}", "{\"p\":2}", &sig_hex), Ok(false));
    assert_eq!(sign_vc_proof_hex("abc", "x", "y"), Err(VcError::InvalidSecretKeyLength));
}
