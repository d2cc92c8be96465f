//! Verification of W3C Verifiable Credentials secured with an ML-DSA-65
//! Data Integrity proof (cryptosuite mldsa65-rdfc-2024).

use vstd::prelude::*;
use base64::Engine;
use crate::constants::{PUBLICKEYBYTES, SECRETKEYBYTES, SIGNBYTES};
use crate::dilithium_masked::{verify, sign, MlDsaError};
use crate::mldsa_spec::{formatted_message, verify_spec, sign_spec};
use crate::polynomial::{shake256_2, shake256_output};
use crate::rdfc::{text_chars, text_string, sort_spec, texts, sort_texts_pub, lemma_sort_members, text_eq_pub,
    hex_digit_value, hex_text, hex_lower, hex_encode};

verus! {

/// The multicodec prefix of an ML-DSA-65 public key (0x1305, big-endian).
pub const MLDSA65_MULTICODEC: u16 = 0x1305;

/// Failures of credential verification.
#[derive(Debug, Clone, PartialEq, Eq, Structural)]
pub enum VcError {
    InvalidDidKey,
    Base58Decode,
    InvalidMulticodecLength,
    WrongMulticodec,
    InvalidPublicKeyLength,
    NoProof,
    MissingCryptosuite,
    UnsupportedCryptosuite,
    MissingVerificationMethod,
    MissingProofValue,
    Base64Decode,
    InvalidSignatureLength,
    InvalidSecretKeyLength,
    Signature(MlDsaError),
}

/// The description of each error.
pub open spec fn vc_error_text(e: VcError) -> Seq<char> {
    match e {
        VcError::InvalidDidKey => "Invalid did:key format"@,
        VcError::Base58Decode => "Invalid base58 encoding"@,
        VcError::InvalidMulticodecLength => "Invalid multicodec length"@,
        VcError::WrongMulticodec => "Expected ML-DSA-65 multicodec (0x1305)"@,
        VcError::InvalidPublicKeyLength => "Invalid public key length"@,
        VcError::NoProof => "No proof found in credential"@,
        VcError::MissingCryptosuite => "Missing cryptosuite"@,
        VcError::UnsupportedCryptosuite => "Unsupported cryptosuite"@,
        VcError::MissingVerificationMethod => "Missing verificationMethod"@,
        VcError::MissingProofValue => "Missing proofValue"@,
        VcError::Base64Decode => "Invalid base64url encoding"@,
        VcError::InvalidSignatureLength => "Invalid signature length"@,
        VcError::InvalidSecretKeyLength => "Invalid secret key length"@,
        VcError::Signature(_) => "Signature verification error"@,
    }
}

impl VcError {
    /// A short description of the error.
    pub fn message(&self) -> (m: &'static str)
        ensures
            m@ == vc_error_text(*self),
    {
        match self {
            VcError::InvalidDidKey => "Invalid did:key format",
            VcError::Base58Decode => "Invalid base58 encoding",
            VcError::InvalidMulticodecLength => "Invalid multicodec length",
            VcError::WrongMulticodec => "Expected ML-DSA-65 multicodec (0x1305)",
            VcError::InvalidPublicKeyLength => "Invalid public key length",
            VcError::NoProof => "No proof found in credential",
            VcError::MissingCryptosuite => "Missing cryptosuite",
            VcError::UnsupportedCryptosuite => "Unsupported cryptosuite",
            VcError::MissingVerificationMethod => "Missing verificationMethod",
            VcError::MissingProofValue => "Missing proofValue",
            VcError::Base64Decode => "Invalid base64url encoding",
            VcError::InvalidSignatureLength => "Invalid signature length",
            VcError::InvalidSecretKeyLength => "Invalid secret key length",
            VcError::Signature(_) => "Signature verification error",
        }
    }
}

// ---------------------------------------------------------------------------
// did:key
// ---------------------------------------------------------------------------

/// Base58 (Bitcoin alphabet) decoding as bs58 defines it; None when the text
/// holds a character outside the alphabet.
pub uninterp spec fn base58_decode(text: Seq<char>) -> Option<Seq<u8>>;

/// bs58::decode(text).into_vec(). Trusted: the result is the named decoding.
#[verifier::external_body]
fn bs58_decode(text: &str) -> (r: Option<Vec<u8>>)
    ensures
        match base58_decode(text@) {
            Some(b) => r matches Some(v) && v@ == b,
            None => r is None,
        },
{
    match bs58::decode(text).into_vec() {
        Ok(v) => Some(v),
        Err(_) => None,
    }
}

/// The public key of a did:key identifier: "did:key:z", then the base58
/// encoding of the multicodec 0x13 0x05 followed by the 1952 key bytes.
pub open spec fn did_key_spec(did: Seq<char>) -> Result<Seq<u8>, VcError> {
    if !(did.len() >= 9 && did.subrange(0, 9) == "did:key:z"@) {
        Err(VcError::InvalidDidKey)
    } else {
        match base58_decode(did.subrange(9, did.len() as int)) {
            None => Err(VcError::Base58Decode),
            Some(b) => if b.len() < 2 {
                Err(VcError::InvalidMulticodecLength)
            } else if !(b[0] == 0x13 && b[1] == 0x05) {
                Err(VcError::WrongMulticodec)
            } else if b.len() != 2 + 1952 {
                Err(VcError::InvalidPublicKeyLength)
            } else {
                Ok(b.subrange(2, b.len() as int))
            },
        }
    }
}

/// Whether v starts with the characters of p.
fn starts_with(v: &[char], p: &[char]) -> (r: bool)
    ensures
        r == (v@.len() >= p@.len() && v@.subrange(0, p@.len() as int) == p@),
{
    if v.len() < p.len() {
        return false;
    }
    let mut i: usize = 0;
    while i < p.len()
        invariant
            0 <= i <= p@.len() <= v@.len(),
            forall|j: int| 0 <= j < i ==> v@[j] == p@[j],
        decreases p@.len() - i,
    {
        if v[i] != p[i] {
            assert(v@.subrange(0, p@.len() as int)[i as int] != p@[i as int]);
            return false;
        }
        i += 1;
    }
    assert(v@.subrange(0, p@.len() as int) =~= p@);
    true
}

/// Extracts the ML-DSA-65 public key from a did:key identifier.
pub fn extract_public_key_from_did_key(did_key: &str) -> (r: Result<[u8; PUBLICKEYBYTES], VcError>)
    ensures
        match did_key_spec(did_key@) {
            Ok(pk) => r matches Ok(k) && k@ == pk,
            Err(e) => r == Err::<[u8; PUBLICKEYBYTES], VcError>(e),
        },
{
    let chars = text_chars(did_key);
    let prefix = text_chars("did:key:z");
    if !starts_with(chars.as_slice(), prefix.as_slice()) {
        return Err(VcError::InvalidDidKey);
    }
    proof {
        reveal_strlit("did:key:z");
    }
    assert(prefix@.len() == 9);
    let mut rest: Vec<char> = Vec::new();
    let mut i: usize = 9;
    assert(rest@ =~= chars@.subrange(9, 9));
    while i < chars.len()
        invariant
            9 <= i <= chars@.len(),
            rest@ == chars@.subrange(9, i as int),
        decreases chars@.len() - i,
    {
        rest.push(chars[i]);
        assert(chars@.subrange(9, i + 1) =~= chars@.subrange(9, i as int).push(chars@[i as int]));
        i += 1;
    }
    let encoded = text_string(rest.as_slice());
    let bytes = match bs58_decode(encoded.as_str()) {
        None => {
            return Err(VcError::Base58Decode);
        },
        Some(b) => b,
    };
    if bytes.len() < 2 {
        return Err(VcError::InvalidMulticodecLength);
    }
    let codec: u16 = ((bytes[0] as u16) << 8u16) | (bytes[1] as u16);
    proof {
        let b0 = bytes@[0];
        let b1 = bytes@[1];
        assert((((b0 as u16) << 8u16) | (b1 as u16) == 0x1305u16) == (b0 == 0x13u8 && b1 == 0x05u8)) by (bit_vector);
    }
    if codec != MLDSA65_MULTICODEC {
        return Err(VcError::WrongMulticodec);
    }
    if bytes.len() - 2 != PUBLICKEYBYTES {
        return Err(VcError::InvalidPublicKeyLength);
    }
    let mut pk = [0u8; PUBLICKEYBYTES];
    let mut k: usize = 0;
    while k < PUBLICKEYBYTES
        invariant
            0 <= k <= 1952,
            bytes@.len() == 1954,
            forall|j: int| 0 <= j < k ==> #[trigger] pk@[j] == bytes@[j + 2],
        decreases 1952 - k,
    {
        pk[k] = bytes[k + 2];
        k += 1;
    }
    assert(pk@ =~= bytes@.subrange(2, bytes@.len() as int));
    Ok(pk)
}

/// Base58 (Bitcoin alphabet) encoding as bs58 defines it.
pub uninterp spec fn base58_encode(bytes: Seq<u8>) -> Seq<char>;

/// bs58::encode(bytes) with the Bitcoin alphabet, into a string. Trusted: the
/// text is the named encoding, and decoding it gives the bytes back (bs58's
/// decoding is the inverse of its encoding).
#[verifier::external_body]
fn bs58_encode(bytes: &[u8]) -> (r: String)
    ensures
        r@ == base58_encode(bytes@),
        base58_decode(r@) == Some(bytes@),
{
    bs58::encode(bytes).with_alphabet(bs58::Alphabet::BITCOIN).into_string()
}

/// hex::decode: the bytes of the pairs of hexadecimal digits (either case), high
/// digit first; None when a character is not a hexadecimal digit or the number
/// of digits is odd.
pub open spec fn hex_decode_spec(s: Seq<char>) -> Option<Seq<u8>> {
    if (forall|i: int| 0 <= i < s.len() ==> #[trigger] hex_digit_value(s[i]) is Some) && s.len() % 2 == 0 {
        Some(Seq::new((s.len() / 2) as nat, |i: int|
            (16 * hex_digit_value(s[2 * i])->0 + hex_digit_value(s[2 * i + 1])->0) as u8))
    } else {
        None
    }
}

/// hex::decode. Trusted: the result is `hex_decode_spec` of the text (hex
/// checks the length for evenness and each byte for a digit of 0-9, a-f or A-F;
/// a character outside ASCII never is one).
#[verifier::external_body]
fn hex_decode(text: &str) -> (r: Option<Vec<u8>>)
    ensures
        match hex_decode_spec(text@) {
            Some(b) => r matches Some(v) && v@ == b,
            None => r is None,
        },
{
    hex::decode(text).ok()
}

/// The did:key of a public key given in hexadecimal: "did:key:z" followed by
/// the base58 encoding of the multicodec 0x13 0x05 and the key bytes (no key
/// bytes when the text is not hexadecimal).
pub open spec fn create_did_spec(public_key_hex: Seq<char>) -> Seq<char> {
    let pk = match hex_decode_spec(public_key_hex) {
        Some(b) => b,
        None => Seq::empty(),
    };
    "did:key:z"@ + base58_encode(seq![0x13u8, 0x05u8] + pk)
}

/// Builds the did:key identifier of a public key given in hexadecimal. For the
/// hexadecimal text of a 1952-byte key, the identifier gives that key back.
pub fn create_did(public_key_hex: &str) -> (r: String)
    ensures
        r@ == create_did_spec(public_key_hex@),
        match hex_decode_spec(public_key_hex@) {
            Some(pk) => pk.len() == 1952 ==> did_key_spec(r@) == Ok::<Seq<u8>, VcError>(pk),
            None => true,
        },
{
    let pk_bytes = match hex_decode(public_key_hex) {
        Some(v) => v,
        None => Vec::new(),
    };
    let mut combined: Vec<u8> = Vec::new();
    combined.push((MLDSA65_MULTICODEC / 256) as u8);
    combined.push((MLDSA65_MULTICODEC % 256) as u8);
    let mut k: usize = 0;
    while k < pk_bytes.len()
        invariant
            0 <= k <= pk_bytes@.len(),
            combined@ == seq![0x13u8, 0x05u8] + pk_bytes@.subrange(0, k as int),
        decreases pk_bytes@.len() - k,
    {
        combined.push(pk_bytes[k]);
        k += 1;
        assert(seq![0x13u8, 0x05u8] + pk_bytes@.subrange(0, k as int)
            =~= (seq![0x13u8, 0x05u8] + pk_bytes@.subrange(0, k - 1)).push(pk_bytes@[k - 1]));
    }
    assert(pk_bytes@.subrange(0, pk_bytes@.len() as int) =~= pk_bytes@);
    let encoded = bs58_encode(combined.as_slice());
    let mut out = text_chars("did:key:z");
    let enc = text_chars(encoded.as_str());
    crate::rdfc::append_chars(&mut out, enc.as_slice());
    proof {
        reveal_strlit("did:key:z");
        let d = out@;
        assert(d.subrange(0, 9) =~= "did:key:z"@);
        assert(d.subrange(9, d.len() as int) =~= encoded@);
        assert(combined@.subrange(2, combined@.len() as int) =~= pk_bytes@);
    }
    text_string(out.as_slice())
}

/// Position of the first '#' of s at or after i, or the length of s.
pub open spec fn hash_index(s: Seq<char>, i: int) -> int
    decreases s.len() - i,
{
    if i >= s.len() || i < 0 { s.len() as int } else if s[i] == '#' { i } else { hash_index(s, i + 1) }
}

/// The key bytes, in hexadecimal, of the did:key before any '#': the base58
/// text after "did:key:z" (empty when the prefix is missing) is decoded, and
/// the bytes after the first two are the key; empty when decoding fails or
/// gives no more than two bytes.
pub open spec fn pk_hex_from_did_spec(did: Seq<char>) -> Seq<char> {
    let d = did.subrange(0, hash_index(did, 0));
    let enc = if d.len() >= 9 && d.subrange(0, 9) == "did:key:z"@ { d.subrange(9, d.len() as int) } else { Seq::empty() };
    match base58_decode(enc) {
        Some(b) => if b.len() > 2 { hex_text(b.subrange(2, b.len() as int)) } else { Seq::empty() },
        None => Seq::empty(),
    }
}

/// The public key, in hexadecimal, named by a did:key (see `pk_hex_from_did_spec`).
pub fn extract_pk_from_did(did: &str) -> (r: String)
    ensures
        r@ == pk_hex_from_did_spec(did@),
{
    let chars = text_chars(did);
    let mut end: usize = 0;
    while end < chars.len() && chars[end] != '#'
        invariant
            0 <= end <= chars@.len(),
            hash_index(chars@, end as int) == hash_index(chars@, 0),
        decreases chars@.len() - end,
    {
        end += 1;
    }
    let prefix = text_chars("did:key:z");
    proof {
        reveal_strlit("did:key:z");
    }
    let mut enc: Vec<char> = Vec::new();
    let ghost d = chars@.subrange(0, end as int);
    if end >= 9 && starts_with(chars.as_slice(), prefix.as_slice()) {
        let mut i: usize = 9;
        while i < end
            invariant
                9 <= i <= end <= chars@.len(),
                enc@ == chars@.subrange(9, i as int),
            decreases end - i,
        {
            enc.push(chars[i]);
            assert(chars@.subrange(9, i + 1) =~= chars@.subrange(9, i as int).push(chars@[i as int]));
            i += 1;
        }
        assert(d.subrange(0, 9) =~= chars@.subrange(0, 9));
        assert(d.subrange(9, d.len() as int) =~= enc@);
    } else {
        assert(!(d.len() >= 9 && d.subrange(0, 9) == "did:key:z"@)) by {
            if d.len() >= 9 && d.subrange(0, 9) == "did:key:z"@ {
                assert(chars@.subrange(0, 9) =~= d.subrange(0, 9));
            }
        }
    }
    let enc_text = text_string(enc.as_slice());
    match bs58_decode(enc_text.as_str()) {
        Some(bytes) => {
            if bytes.len() > 2 {
                let mut key: Vec<u8> = Vec::new();
                let mut k: usize = 2;
                while k < bytes.len()
                    invariant
                        2 <= k <= bytes@.len(),
                        key@ == bytes@.subrange(2, k as int),
                    decreases bytes@.len() - k,
                {
                    key.push(bytes[k]);
                    assert(bytes@.subrange(2, k + 1) =~= bytes@.subrange(2, k as int).push(bytes@[k as int]));
                    k += 1;
                }
                crate::rdfc::hex_encode(key.as_slice())
            } else {
                String::new()
            }
        },
        None => String::new(),
    }
}

/// Hexadecimal text gives back its bytes.
pub proof fn lemma_hex_roundtrip(b: Seq<u8>)
    ensures
        hex_decode_spec(hex_text(b)) == Some(b),
{
    let t = hex_text(b);
    assert forall|i: int| 0 <= i < t.len() implies #[trigger] hex_digit_value(t[i]) is Some
        && hex_digit_value(t[i])->0 == (if i % 2 == 0 { b[i / 2] as int / 16 } else { b[i / 2] as int % 16 }) by {
        let d = if i % 2 == 0 { b[i / 2] as int / 16 } else { b[i / 2] as int % 16 };
        assert(0 <= d < 16);
        if d < 10 {
            assert(hex_lower(d) == (48 + d) as char);
        } else {
            assert(hex_lower(d) == (87 + d) as char);
        }
    }
    assert(t.len() % 2 == 0);
    let r = Seq::new((t.len() / 2) as nat, |i: int|
        (16 * hex_digit_value(t[2 * i])->0 + hex_digit_value(t[2 * i + 1])->0) as u8);
    assert forall|i: int| 0 <= i < b.len() implies #[trigger] r[i] == b[i] by {
        assert(hex_digit_value(t[2 * i])->0 == b[i] as int / 16);
        assert(hex_digit_value(t[2 * i + 1])->0 == b[i] as int % 16);
    }
    assert(r =~= b);
}

} // verus!

verus! {

// ---------------------------------------------------------------------------
// JSON values and the JSON Canonicalization Scheme
// ---------------------------------------------------------------------------

/// A JSON value as the credential logic reads it. Numbers are held by their
/// textual form; objects by their members in order, each key once.
#[derive(Debug)]
pub enum JsonValue {
    Null,
    Bool(bool),
    Number(String),
    String(String),
    Array(Vec<JsonValue>),
    Object(Vec<(String, JsonValue)>),
}

/// serde_json's escape of one character: '"' and a backslash behind a
/// backslash, backspace, tab, line feed, form feed and carriage return as
/// backslash and b, t, n, f or r, the other characters below U+0020 as a
/// backslash, u, 00 and two
/// lower-case hexadecimal digits, every other character as itself.
pub open spec fn json_escape_char(c: char) -> Seq<char> {
    let n = c as int;
    if c == '"' {
        seq!['\\', '"']
    } else if c == '\\' {
        seq!['\\', '\\']
    } else if n == 8 {
        seq!['\\', 'b']
    } else if n == 9 {
        seq!['\\', 't']
    } else if n == 10 {
        seq!['\\', 'n']
    } else if n == 12 {
        seq!['\\', 'f']
    } else if n == 13 {
        seq!['\\', 'r']
    } else if n < 32 {
        seq!['\\', 'u', '0', '0', hex_lower(n / 16), hex_lower(n % 16)]
    } else {
        seq![c]
    }
}

/// The escapes of the characters of s, in order.
pub open spec fn json_escape(s: Seq<char>) -> Seq<char>
    decreases s.len(),
{
    if s.len() == 0 { Seq::empty() } else { json_escape(s.drop_last()) + json_escape_char(s.last()) }
}

/// serde_json's string literal for s: its escape in double quotes.
pub open spec fn json_string_text(s: Seq<char>) -> Seq<char> {
    seq!['"'] + json_escape(s) + seq!['"']
}

/// serde_json::to_string on a string. Trusted: the text is the string literal
/// that serde_json's escape table (format_escaped_str_contents) gives.
#[verifier::external_body]
fn json_quote(s: &str) -> (r: String)
    ensures
        r@ == json_string_text(s@),
{
    match serde_json::to_string(s) {
        Ok(t) => t,
        Err(_) => String::new(),
    }
}

/// The keys of the members of an object.
pub open spec fn member_keys(m: Seq<(String, JsonValue)>) -> Seq<Seq<char>> {
    Seq::new(m.len(), |i: int| m[i].0@)
}

/// The first position at or after i of the member with key k, or -1.
pub open spec fn member_index(m: Seq<(String, JsonValue)>, k: Seq<char>, i: int) -> int
    decreases m.len() - i,
{
    if i < 0 || i >= m.len() { -1 } else if m[i].0@ == k { i } else { member_index(m, k, i + 1) }
}

/// The JCS text of a value: objects with their members in code point order of
/// the keys, keys written as they are, strings as serde_json writes them.
pub open spec fn jcs_spec(v: JsonValue) -> Seq<char>
    decreases v, 1int, 0int,
{
    match v {
        JsonValue::Null => seq!['n', 'u', 'l', 'l'],
        JsonValue::Bool(b) => if b { seq!['t', 'r', 'u', 'e'] } else { seq!['f', 'a', 'l', 's', 'e'] },
        JsonValue::Number(t) => t@,
        JsonValue::String(s) => json_string_text(s@),
        JsonValue::Array(a) => seq!['['] + jcs_array(v, a@.len() as int) + seq![']'],
        JsonValue::Object(m) => seq!['{'] + jcs_object(v, None, m@.len() as int) + seq!['}'],
    }
}

/// The keys of ks other than `skip`, in order.
pub open spec fn keys_except(ks: Seq<Seq<char>>, skip: Option<Seq<char>>) -> Seq<Seq<char>>
    decreases ks.len(),
{
    if ks.len() == 0 {
        ks
    } else {
        let prev = keys_except(ks.drop_last(), skip);
        if skip == Some(ks.last()) { prev } else { prev.push(ks.last()) }
    }
}

/// The JCS texts of the first n elements of an array, separated by commas.
pub open spec fn jcs_array(v: JsonValue, n: int) -> Seq<char>
    decreases v, 0int, n,
{
    match v {
        JsonValue::Array(a) => if n <= 0 || n > a@.len() {
            Seq::empty()
        } else if n == 1 {
            jcs_spec(a@[0])
        } else {
            jcs_array(v, n - 1) + seq![','] + jcs_spec(a@[n - 1])
        },
        _ => Seq::empty(),
    }
}

/// The JCS texts of the members with the first n keys in code point order
/// (leaving out the key `skip`), separated by commas.
pub open spec fn jcs_object(v: JsonValue, skip: Option<Seq<char>>, n: int) -> Seq<char>
    decreases v, 0int, n,
{
    match v {
        JsonValue::Object(m) => {
            let ks = sort_spec(keys_except(member_keys(m@), skip));
            if n <= 0 || n > ks.len() {
                Seq::empty()
            } else {
                let k = ks[n - 1];
                let i = member_index(m@, k, 0);
                let item = if 0 <= i < m@.len() {
                    seq!['"'] + k + seq!['"', ':'] + jcs_spec(m@[i].1)
                } else {
                    Seq::empty()
                };
                if n == 1 { item } else { jcs_object(v, skip, n - 1) + seq![','] + item }
            }
        },
        _ => Seq::empty(),
    }
}

fn append_text(out: &mut Vec<char>, s: &[char])
    ensures
        final(out)@ == old(out)@ + s@,
{
    let ghost o = out@;
    let mut i: usize = 0;
    while i < s.len()
        invariant
            0 <= i <= s@.len(),
            out@ == o + s@.subrange(0, i as int),
            o == old(out)@,
        decreases s@.len() - i,
    {
        out.push(s[i]);
        assert(o + s@.subrange(0, i + 1) =~= (o + s@.subrange(0, i as int)).push(s@[i as int]));
        i += 1;
    }
    assert(s@.subrange(0, s@.len() as int) =~= s@);
}

fn member_index_exec(m: &Vec<(String, JsonValue)>, k: &[char]) -> (r: Option<usize>)
    ensures
        match r {
            Some(i) => i as int == member_index(m@, k@, 0) && i < m@.len(),
            None => member_index(m@, k@, 0) == -1,
        },
{
    let key = text_string(k);
    let mut i: usize = 0;
    while i < m.len()
        invariant
            0 <= i <= m@.len(),
            key@ == k@,
            member_index(m@, k@, 0) == member_index(m@, k@, i as int),
        decreases m@.len() - i,
    {
        if m[i].0 == key {
            return Some(i);
        }
        i += 1;
    }
    None
}

fn jcs_chars(value: &JsonValue) -> (r: Vec<char>)
    ensures
        r@ == jcs_spec(*value),
    decreases value, 1int,
{
    match value {
        JsonValue::Null => {
            let mut r: Vec<char> = Vec::new();
            r.push('n'); r.push('u'); r.push('l'); r.push('l');
            assert(r@ =~= jcs_spec(*value));
            r
        },
        JsonValue::Bool(b) => {
            let mut r: Vec<char> = Vec::new();
            if *b {
                r.push('t'); r.push('r'); r.push('u'); r.push('e');
            } else {
                r.push('f'); r.push('a'); r.push('l'); r.push('s'); r.push('e');
            }
            assert(r@ =~= jcs_spec(*value));
            r
        },
        JsonValue::Number(t) => text_chars(t.as_str()),
        JsonValue::String(s) => {
            let q = json_quote(s.as_str());
            text_chars(q.as_str())
        },
        JsonValue::Array(a) => {
            let mut r: Vec<char> = Vec::new();
            r.push('[');
            let mut i: usize = 0;
            while i < a.len()
                invariant
                    0 <= i <= a@.len(),
                    *value == JsonValue::Array(*a),
                    r@ == seq!['['] + jcs_array(*value, i as int),
                decreases a@.len() - i,
            {
                assert(decreases_to!(*value => a@[i as int]));
                let item = jcs_chars(&a[i]);
                if i > 0 {
                    r.push(',');
                }
                append_text(&mut r, item.as_slice());
                proof {
                    if i == 0 {
                        assert(r@ =~= seq!['['] + jcs_array(*value, 1));
                    } else {
                        assert(r@ =~= seq!['['] + jcs_array(*value, i + 1));
                    }
                }
                i += 1;
            }
            r.push(']');
            assert(r@ =~= jcs_spec(*value));
            r
        },
        JsonValue::Object(m) => {
            let r = jcs_object_chars(value, m, None);
            proof {
                lemma_keys_except_none(member_keys(m@));
                lemma_sort_members(member_keys(m@));
                assert(opt_text(None) == None::<Seq<char>>);
                assert(member_keys(m@).len() == m@.len());
            }
            r
        },
    }
}

proof fn lemma_keys_except_none(ks: Seq<Seq<char>>)
    ensures
        keys_except(ks, None) == ks,
    decreases ks.len(),
{
    if ks.len() > 0 {
        lemma_keys_except_none(ks.drop_last());
        assert(ks.drop_last().push(ks.last()) =~= ks);
    }
}

/// '{', the members of the object (without the key `skip`) in key order, '}'.
fn jcs_object_chars(value: &JsonValue, m: &Vec<(String, JsonValue)>, skip: Option<&[char]>) -> (r: Vec<char>)
    requires
        *value == JsonValue::Object(*m),
    ensures
        r@ == seq!['{'] + jcs_object(*value, opt_text(skip),
            sort_spec(keys_except(member_keys(m@), opt_text(skip))).len() as int) + seq!['}'],
    decreases value, 0int,
{
    let ghost sk = opt_text(skip);
    let mut keys: Vec<Vec<char>> = Vec::new();
    let mut i: usize = 0;
    while i < m.len()
        invariant
            0 <= i <= m@.len(),
            sk == opt_text(skip),
            texts(keys@) == keys_except(member_keys(m@).subrange(0, i as int), sk),
        decreases m@.len() - i,
    {
        let ghost before = texts(keys@);
        let c = text_chars(m[i].0.as_str());
        let ghost pre = member_keys(m@).subrange(0, i + 1);
        assert(pre.drop_last() =~= member_keys(m@).subrange(0, i as int));
        assert(pre.last() == m@[i as int].0@);
        let skipped = match skip {
            Some(sv) => text_eq_pub(c.as_slice(), sv),
            None => false,
        };
        if !skipped {
            keys.push(c);
            assert(texts(keys@) =~= before.push(m@[i as int].0@));
        }
        i += 1;
    }
    assert(member_keys(m@).subrange(0, m@.len() as int) =~= member_keys(m@));
    let sorted = sort_texts_pub(keys);
    let mut r: Vec<char> = Vec::new();
    r.push('{');
    let mut n: usize = 0;
    let ghost ks = sort_spec(keys_except(member_keys(m@), sk));
    while n < sorted.len()
        invariant
            0 <= n <= sorted@.len(),
            *value == JsonValue::Object(*m),
            sk == opt_text(skip),
            texts(sorted@) == ks,
            ks == sort_spec(keys_except(member_keys(m@), sk)),
            r@ == seq!['{'] + jcs_object(*value, sk, n as int),
        decreases sorted@.len() - n,
    {
        let k = &sorted[n];
        assert(k@ == ks[n as int]);
        let mut item: Vec<char> = Vec::new();
        match member_index_exec(m, k.as_slice()) {
            Some(j) => {
                assert(decreases_to!(*value => m@[j as int].1));
                let inner = jcs_chars(&m[j].1);
                item.push('"');
                append_text(&mut item, k.as_slice());
                item.push('"');
                item.push(':');
                append_text(&mut item, inner.as_slice());
            },
            None => {},
        }
        if n > 0 {
            r.push(',');
        }
        append_text(&mut r, item.as_slice());
        proof {
            if n == 0 {
                assert(r@ =~= seq!['{'] + jcs_object(*value, sk, 1));
            } else {
                assert(r@ =~= seq!['{'] + jcs_object(*value, sk, n + 1));
            }
        }
        n += 1;
    }
    r.push('}');
    assert(r@ =~= seq!['{'] + jcs_object(*value, sk, ks.len() as int) + seq!['}']);
    r
}

/// The characters of an optional text.
pub open spec fn opt_text(o: Option<&[char]>) -> Option<Seq<char>> {
    match o {
        Some(t) => Some(t@),
        None => None,
    }
}

/// The JSON Canonicalization Scheme text of a value (never fails).
pub fn canonicalize_json_jcs(value: &JsonValue) -> (r: Result<String, VcError>)
    ensures
        r matches Ok(s) && s@ == jcs_spec(*value),
{
    let c = jcs_chars(value);
    Ok(text_string(c.as_slice()))
}

} // verus!

verus! {

// ---------------------------------------------------------------------------
// Messages and credential verification
// ---------------------------------------------------------------------------

/// The UTF-8 encoding of one character.
pub open spec fn utf8_char(c: char) -> Seq<u8> {
    let x = c as u32 as int;
    if x < 0x80 {
        seq![x as u8]
    } else if x < 0x800 {
        seq![(0xC0 + x / 64) as u8, (0x80 + x % 64) as u8]
    } else if x < 0x10000 {
        seq![(0xE0 + x / 4096) as u8, (0x80 + (x / 64) % 64) as u8, (0x80 + x % 64) as u8]
    } else {
        seq![(0xF0 + x / 262144) as u8, (0x80 + (x / 4096) % 64) as u8, (0x80 + (x / 64) % 64) as u8,
            (0x80 + x % 64) as u8]
    }
}

/// The UTF-8 encoding of a text.
pub open spec fn utf8_spec(s: Seq<char>) -> Seq<u8>
    decreases s.len(),
{
    if s.len() == 0 { Seq::empty() } else { utf8_spec(s.drop_last()) + utf8_char(s.last()) }
}

fn push_utf8(out: &mut Vec<u8>, c: char)
    ensures
        final(out)@ == old(out)@ + utf8_char(c),
{
    let x = c as u32;
    let ghost o = out@;
    if x < 0x80 {
        out.push(x as u8);
    } else if x < 0x800 {
        out.push((0xC0 + x / 64) as u8);
        out.push((0x80 + x % 64) as u8);
    } else if x < 0x10000 {
        out.push((0xE0 + x / 4096) as u8);
        out.push((0x80 + (x / 64) % 64) as u8);
        out.push((0x80 + x % 64) as u8);
    } else {
        assert(x < 0x110000);
        out.push((0xF0 + x / 262144) as u8);
        out.push((0x80 + (x / 4096) % 64) as u8);
        out.push((0x80 + (x / 64) % 64) as u8);
        out.push((0x80 + x % 64) as u8);
    }
    assert(out@ =~= o + utf8_char(c));
}

fn utf8_bytes(s: &[char]) -> (r: Vec<u8>)
    ensures
        r@ == utf8_spec(s@),
{
    let mut out: Vec<u8> = Vec::new();
    let mut i: usize = 0;
    while i < s.len()
        invariant
            0 <= i <= s@.len(),
            out@ == utf8_spec(s@.subrange(0, i as int)),
        decreases s@.len() - i,
    {
        push_utf8(&mut out, s[i]);
        assert(s@.subrange(0, i + 1).drop_last() =~= s@.subrange(0, i as int));
        i += 1;
    }
    assert(s@.subrange(0, s@.len() as int) =~= s@);
    out
}

/// The JCS text of a value, leaving out the member `skip` when the value is an object.
pub open spec fn jcs_without(v: JsonValue, skip: Seq<char>) -> Seq<char> {
    match v {
        JsonValue::Object(m) => seq!['{'] + jcs_object(v, Some(skip),
            sort_spec(keys_except(member_keys(m@), Some(skip))).len() as int) + seq!['}'],
        _ => jcs_spec(v),
    }
}

fn jcs_without_chars(v: &JsonValue, skip: &[char]) -> (r: Vec<char>)
    ensures
        r@ == jcs_without(*v, skip@),
{
    match v {
        JsonValue::Object(m) => jcs_object_chars(v, m, Some(skip)),
        _ => jcs_chars(v),
    }
}

/// The JCS text of the credential without its proof.
pub fn canonicalize_vc(vc: &JsonValue) -> (r: Result<String, VcError>)
    ensures
        r matches Ok(s) && s@ == jcs_without(*vc, "proof"@),
{
    let skip = text_chars("proof");
    let c = jcs_without_chars(vc, skip.as_slice());
    Ok(text_string(c.as_slice()))
}

/// The JCS text of a proof configuration: the proof without its proofValue.
pub fn canonicalize_proof_config(proof: &JsonValue) -> (r: Result<String, VcError>)
    ensures
        r matches Ok(s) && s@ == jcs_without(*proof, "proofValue"@),
{
    let skip = text_chars("proofValue");
    let c = jcs_without_chars(proof, skip.as_slice());
    Ok(text_string(c.as_slice()))
}

/// The message signed by an mldsa65-rdfc-2024 proof: SHAKE256 of the canonical
/// document followed by the JCS text of the proof configuration, 64 bytes.
pub open spec fn verification_message(doc: Seq<char>, config_text: Seq<char>) -> Seq<u8> {
    shake256_output(utf8_spec(doc) + utf8_spec(config_text), 64)
}

/// Builds the message signed by an mldsa65-rdfc-2024 proof (never fails).
pub fn construct_verification_message(canonical_doc: &str, proof_config: &JsonValue) -> (r: Result<Vec<u8>, VcError>)
    ensures
        r matches Ok(m) && m@ == verification_message(canonical_doc@, jcs_spec(*proof_config)),
{
    let pc = jcs_chars(proof_config);
    let d = text_chars(canonical_doc);
    let a = utf8_bytes(d.as_slice());
    let b = utf8_bytes(pc.as_slice());
    let mut msg: Vec<u8> = vec![0u8; 64];
    shake256_2(msg.as_mut_slice(), a.as_slice(), b.as_slice());
    Ok(msg)
}

/// Unpadded base64url decoding as base64's URL_SAFE_NO_PAD engine defines it;
/// None for text it rejects.
pub uninterp spec fn base64url_decode(text: Seq<char>) -> Option<Seq<u8>>;

/// URL_SAFE_NO_PAD.decode. Trusted: the result is the named decoding.
#[verifier::external_body]
fn base64url_decode_exec(text: &str) -> (r: Option<Vec<u8>>)
    ensures
        match base64url_decode(text@) {
            Some(b) => r matches Some(v) && v@ == b,
            None => r is None,
        },
{
    match base64::engine::general_purpose::URL_SAFE_NO_PAD.decode(text) {
        Ok(v) => Some(v),
        Err(_) => None,
    }
}

/// The member `key` of an object (its first occurrence).
pub open spec fn json_get(v: JsonValue, key: Seq<char>) -> Option<JsonValue> {
    match v {
        JsonValue::Object(m) => {
            let i = member_index(m@, key, 0);
            if 0 <= i < m@.len() { Some(m@[i].1) } else { None }
        },
        _ => None,
    }
}

/// The text of a string member `key` of an object.
pub open spec fn json_get_str(v: JsonValue, key: Seq<char>) -> Option<Seq<char>> {
    match json_get(v, key) {
        Some(JsonValue::String(s)) => Some(s@),
        _ => None,
    }
}

/// verify_vc on a parsed credential: the checks in order, then ML-DSA-65
/// verification of the signature over the message.
pub open spec fn verify_vc_spec(vc: JsonValue) -> Result<bool, VcError> {
    match json_get(vc, "proof"@) {
        None => Err(VcError::NoProof),
        Some(proof) => match json_get_str(proof, "cryptosuite"@) {
            None => Err(VcError::MissingCryptosuite),
            Some(cs) => if cs != "mldsa65-rdfc-2024"@ {
                Err(VcError::UnsupportedCryptosuite)
            } else {
                match json_get_str(proof, "verificationMethod"@) {
                    None => Err(VcError::MissingVerificationMethod),
                    Some(vm) => match did_key_spec(vm) {
                        Err(e) => Err(e),
                        Ok(pk) => match json_get_str(proof, "proofValue"@) {
                            None => Err(VcError::MissingProofValue),
                            Some(pv) => match base64url_decode(pv) {
                                None => Err(VcError::Base64Decode),
                                Some(sig) => if sig.len() != 3309 {
                                    Err(VcError::InvalidSignatureLength)
                                } else {
                                    let msg = verification_message(jcs_without(vc, "proof"@),
                                        jcs_without(proof, "proofValue"@));
                                    match verify_spec(pk, formatted_message(msg), sig) {
                                        None => Err(VcError::Signature(MlDsaError::MalformedSignature)),
                                        Some(b) => Ok(b),
                                    }
                                },
                            },
                        },
                    },
                }
            },
        },
    }
}

fn json_get_exec<'a>(v: &'a JsonValue, key: &str) -> (r: Option<&'a JsonValue>)
    ensures
        match json_get(*v, key@) {
            Some(x) => r matches Some(y) && *y == x,
            None => r is None,
        },
{
    match v {
        JsonValue::Object(m) => {
            let k = text_chars(key);
            match member_index_exec(m, k.as_slice()) {
                Some(i) => Some(&m[i].1),
                None => None,
            }
        },
        _ => None,
    }
}

fn json_get_str_exec<'a>(v: &'a JsonValue, key: &str) -> (r: Option<&'a String>)
    ensures
        match json_get_str(*v, key@) {
            Some(x) => r matches Some(y) && y@ == x,
            None => r is None,
        },
{
    match json_get_exec(v, key) {
        Some(JsonValue::String(s)) => Some(s),
        _ => None,
    }
}

/// Verifies a Verifiable Credential secured with an mldsa65-rdfc-2024 proof.
pub fn verify_vc(vc: &JsonValue) -> (r: Result<bool, VcError>)
    ensures
        r == verify_vc_spec(*vc),
{
    let proof = match json_get_exec(vc, "proof") {
        None => { return Err(VcError::NoProof); },
        Some(p) => p,
    };
    let cryptosuite = match json_get_str_exec(proof, "cryptosuite") {
        None => { return Err(VcError::MissingCryptosuite); },
        Some(c) => c,
    };
    let expected = text_string(text_chars("mldsa65-rdfc-2024").as_slice());
    if *cryptosuite != expected {
        return Err(VcError::UnsupportedCryptosuite);
    }
    let vm = match json_get_str_exec(proof, "verificationMethod") {
        None => { return Err(VcError::MissingVerificationMethod); },
        Some(v) => v,
    };
    let pk = match extract_public_key_from_did_key(vm.as_str()) {
        Err(e) => { return Err(e); },
        Ok(pk) => pk,
    };
    let proof_value = match json_get_str_exec(proof, "proofValue") {
        None => { return Err(VcError::MissingProofValue); },
        Some(p) => p,
    };
    let signature = match base64url_decode_exec(proof_value.as_str()) {
        None => { return Err(VcError::Base64Decode); },
        Some(s) => s,
    };
    if signature.len() != SIGNBYTES {
        return Err(VcError::InvalidSignatureLength);
    }
    let doc = jcs_without_chars(vc, text_chars("proof").as_slice());
    let config = jcs_without_chars(proof, text_chars("proofValue").as_slice());
    let a = utf8_bytes(doc.as_slice());
    let b = utf8_bytes(config.as_slice());
    let mut msg: Vec<u8> = vec![0u8; 64];
    shake256_2(msg.as_mut_slice(), a.as_slice(), b.as_slice());
    let mut sig = [0u8; SIGNBYTES];
    let mut k: usize = 0;
    while k < SIGNBYTES
        invariant
            0 <= k <= 3309,
            signature@.len() == 3309,
            forall|j: int| 0 <= j < k ==> #[trigger] sig@[j] == signature@[j],
        decreases 3309 - k,
    {
        sig[k] = signature[k];
        k += 1;
    }
    assert(sig@ =~= signature@);
    match verify(&pk, msg.as_slice(), &sig) {
        Err(e) => Err(VcError::Signature(e)),
        Ok(v) => Ok(v),
    }
}


// ---------------------------------------------------------------------------
// Keys and signatures in hexadecimal
// ---------------------------------------------------------------------------

/// The bytes of v as an array of n bytes, when v has n bytes.
fn bytes_to_array_pk(v: &Vec<u8>) -> (a: [u8; PUBLICKEYBYTES])
    requires
        v@.len() == 1952,
    ensures
        a@ == v@,
{
    let mut a = [0u8; PUBLICKEYBYTES];
    let mut i: usize = 0;
    while i < PUBLICKEYBYTES
        invariant
            0 <= i <= 1952,
            v@.len() == 1952,
            a@.len() == 1952,
            forall|j: int| 0 <= j < i ==> #[trigger] a@[j] == v@[j],
        decreases 1952 - i,
    {
        a[i] = v[i];
        i += 1;
    }
    assert(a@ =~= v@);
    a
}

fn bytes_to_array_sig(v: &Vec<u8>) -> (a: [u8; SIGNBYTES])
    requires
        v@.len() == 3309,
    ensures
        a@ == v@,
{
    let mut a = [0u8; SIGNBYTES];
    let mut i: usize = 0;
    while i < SIGNBYTES
        invariant
            0 <= i <= 3309,
            v@.len() == 3309,
            a@.len() == 3309,
            forall|j: int| 0 <= j < i ==> #[trigger] a@[j] == v@[j],
        decreases 3309 - i,
    {
        a[i] = v[i];
        i += 1;
    }
    assert(a@ =~= v@);
    a
}

fn bytes_to_array_sk(v: &Vec<u8>) -> (a: [u8; SECRETKEYBYTES])
    requires
        v@.len() == 4032,
    ensures
        a@ == v@,
{
    let mut a = [0u8; SECRETKEYBYTES];
    let mut i: usize = 0;
    while i < SECRETKEYBYTES
        invariant
            0 <= i <= 4032,
            v@.len() == 4032,
            a@.len() == 4032,
            forall|j: int| 0 <= j < i ==> #[trigger] a@[j] == v@[j],
        decreases 4032 - i,
    {
        a[i] = v[i];
        i += 1;
    }
    assert(a@ =~= v@);
    a
}

/// Verification of a signature on msg with the public key and the signature
/// given in hexadecimal: a key that is not hexadecimal of 1952 bytes, or a
/// signature that is not hexadecimal of 3309 bytes, is an error; so is a
/// malformed hint encoding.
pub open spec fn verify_hex_spec(public_key_hex: Seq<char>, msg: Seq<u8>, signature_hex: Seq<char>)
    -> Result<bool, VcError> {
    match hex_decode_spec(public_key_hex) {
        Some(pk) => if pk.len() != 1952 {
            Err(VcError::InvalidPublicKeyLength)
        } else {
            match hex_decode_spec(signature_hex) {
                Some(sig) => if sig.len() != 3309 {
                    Err(VcError::InvalidSignatureLength)
                } else {
                    match verify_spec(pk, formatted_message(msg), sig) {
                        Some(b) => Ok(b),
                        None => Err(VcError::Signature(MlDsaError::MalformedSignature)),
                    }
                },
                None => Err(VcError::InvalidSignatureLength),
            }
        },
        None => Err(VcError::InvalidPublicKeyLength),
    }
}

/// Verifies a signature on msg, the public key and the signature in hexadecimal.
pub fn verify_hex(public_key_hex: &str, msg: &[u8], signature_hex: &str) -> (r: Result<bool, VcError>)
    ensures
        r == verify_hex_spec(public_key_hex@, msg@, signature_hex@),
{
    let pk_bytes = match hex_decode(public_key_hex) {
        Some(v) => v,
        None => {
            return Err(VcError::InvalidPublicKeyLength);
        },
    };
    if pk_bytes.len() != PUBLICKEYBYTES {
        return Err(VcError::InvalidPublicKeyLength);
    }
    let sig_bytes = match hex_decode(signature_hex) {
        Some(v) => v,
        None => {
            return Err(VcError::InvalidSignatureLength);
        },
    };
    if sig_bytes.len() != SIGNBYTES {
        return Err(VcError::InvalidSignatureLength);
    }
    let pk = bytes_to_array_pk(&pk_bytes);
    let sig = bytes_to_array_sig(&sig_bytes);
    match verify(&pk, msg, &sig) {
        Ok(b) => Ok(b),
        Err(e) => Err(VcError::Signature(e)),
    }
}

/// Signs msg with the secret key given in hexadecimal; the signature in
/// lower-case hexadecimal. A key that is not hexadecimal of 4032 bytes is an
/// error; so is a failure of signing, which draws 32 random bytes rnd.
pub fn sign_hex(secret_key_hex: &str, msg: &[u8]) -> (r: Result<String, VcError>)
    ensures
        match hex_decode_spec(secret_key_hex@) {
            Some(sk) => if sk.len() != 4032 {
                r == Err::<String, VcError>(VcError::InvalidSecretKeyLength)
            } else {
                match r {
                    Ok(s) => exists|rnd: Seq<u8>| rnd.len() == 32
                        && #[trigger] sign_spec(sk, formatted_message(msg@), rnd) is Some
                        && s@ == hex_text(sign_spec(sk, formatted_message(msg@), rnd)->Some_0),
                    Err(e) => e == VcError::Signature(MlDsaError::RngFailed)
                        || (e == VcError::Signature(MlDsaError::RejectionLimitReached)
                        && exists|rnd: Seq<u8>| rnd.len() == 32
                        && #[trigger] sign_spec(sk, formatted_message(msg@), rnd) is None),
                }
            },
            None => r == Err::<String, VcError>(VcError::InvalidSecretKeyLength),
        },
{
    let sk_bytes = match hex_decode(secret_key_hex) {
        Some(v) => v,
        None => {
            return Err(VcError::InvalidSecretKeyLength);
        },
    };
    if sk_bytes.len() != SECRETKEYBYTES {
        return Err(VcError::InvalidSecretKeyLength);
    }
    let sk = bytes_to_array_sk(&sk_bytes);
    match sign(&sk, msg) {
        Ok(sig) => {
            let s = hex_encode(&sig);
            Ok(s)
        },
        Err(e) => Err(VcError::Signature(e)),
    }
}

/// The message of a proof: SHAKE256 of the canonical credential followed by
/// the canonical proof configuration (both in UTF-8), 64 bytes.
pub fn proof_message(canonical_vc: &str, canonical_proof: &str) -> (m: [u8; 64])
    ensures
        m@ == verification_message(canonical_vc@, canonical_proof@),
{
    let d = text_chars(canonical_vc);
    let p = text_chars(canonical_proof);
    let a = utf8_bytes(d.as_slice());
    let b = utf8_bytes(p.as_slice());
    let mut m = [0u8; 64];
    shake256_2(&mut m, a.as_slice(), b.as_slice());
    m
}

/// Verifies a proof signature over the canonical credential and proof
/// configuration, the public key and the signature in hexadecimal.
pub fn verify_vc_proof_hex(public_key_hex: &str, canonical_vc: &str, canonical_proof: &str, signature_hex: &str)
    -> (r: Result<bool, VcError>)
    ensures
        r == verify_hex_spec(public_key_hex@, verification_message(canonical_vc@, canonical_proof@), signature_hex@),
{
    let m = proof_message(canonical_vc, canonical_proof);
    verify_hex(public_key_hex, &m, signature_hex)
}

/// Signs the proof message of the canonical credential and proof
/// configuration with the secret key in hexadecimal; the signature in
/// lower-case hexadecimal.
pub fn sign_vc_proof_hex(secret_key_hex: &str, canonical_vc: &str, canonical_proof: &str) -> (r: Result<String, VcError>)
    ensures
        match hex_decode_spec(secret_key_hex@) {
            Some(sk) => if sk.len() != 4032 {
                r == Err::<String, VcError>(VcError::InvalidSecretKeyLength)
            } else {
                match r {
                    Ok(s) => exists|rnd: Seq<u8>| rnd.len() == 32
                        && #[trigger] sign_spec(sk, formatted_message(verification_message(canonical_vc@,
                            canonical_proof@)), rnd) is Some && s@ == hex_text(sign_spec(sk,
                            formatted_message(verification_message(canonical_vc@, canonical_proof@)), rnd)->Some_0),
                    Err(e) => e == VcError::Signature(MlDsaError::RngFailed)
                        || (e == VcError::Signature(MlDsaError::RejectionLimitReached)
                        && exists|rnd: Seq<u8>| rnd.len() == 32
                        && #[trigger] sign_spec(sk, formatted_message(verification_message(canonical_vc@,
                            canonical_proof@)), rnd) is None),
                }
            },
            None => r == Err::<String, VcError>(VcError::InvalidSecretKeyLength),
        },
{
    let m = proof_message(canonical_vc, canonical_proof);
    sign_hex(secret_key_hex, &m)
}
} // verus!

verus! {

// ---------------------------------------------------------------------------
// Laws of the UTF-8 encoding
// ---------------------------------------------------------------------------

/// UTF-8 (RFC 3629): a character below U+0080 is its one byte; any other is
/// a lead byte of at least 0xC0 followed by continuation bytes in
/// [0x80, 0xC0), two bytes below U+0800, three below U+10000 and four above,
/// and the code point is recovered from the low bits of the bytes.
pub proof fn lemma_utf8_char_law(c: char)
    ensures
        (c as u32) < 0x80 ==> utf8_char(c) == seq![(c as u32) as u8],
        (c as u32) >= 0x80 ==> utf8_char(c).len() >= 2 && utf8_char(c)[0] >= 0xC0
            && forall|k: int| 1 <= k < utf8_char(c).len() ==> 0x80 <= #[trigger] utf8_char(c)[k] < 0xC0,
        utf8_char(c).len() == (if (c as u32) < 0x80 { 1int } else if (c as u32) < 0x800 { 2int }
            else if (c as u32) < 0x10000 { 3int } else { 4int }),
        utf8_char(c).len() == 2 ==> (utf8_char(c)[0] - 0xC0) * 64 + (utf8_char(c)[1] - 0x80) == c as u32,
        utf8_char(c).len() == 3 ==> (utf8_char(c)[0] - 0xE0) * 4096 + (utf8_char(c)[1] - 0x80) * 64
            + (utf8_char(c)[2] - 0x80) == c as u32,
        utf8_char(c).len() == 4 ==> (utf8_char(c)[0] - 0xF0) * 262144 + (utf8_char(c)[1] - 0x80) * 4096
            + (utf8_char(c)[2] - 0x80) * 64 + (utf8_char(c)[3] - 0x80) == c as u32,
{
    let x = c as u32 as int;
    assert(x <= 0x10FFFF);
    if x >= 0x80 {
        let b = utf8_char(c);
        if x < 0x800 {
            assert(b[0] as int == 0xC0 + x / 64);
            assert(b[1] as int == 0x80 + x % 64);
        } else if x < 0x10000 {
            assert(b[0] as int == 0xE0 + x / 4096);
            assert(b[1] as int == 0x80 + (x / 64) % 64);
            assert(b[2] as int == 0x80 + x % 64);
            assert((x / 4096) * 4096 + ((x / 64) % 64) * 64 + x % 64 == x);
        } else {
            assert(b[0] as int == 0xF0 + x / 262144);
            assert(b[1] as int == 0x80 + (x / 4096) % 64);
            assert(b[2] as int == 0x80 + (x / 64) % 64);
            assert(b[3] as int == 0x80 + x % 64);
            assert((x / 262144) * 262144 + ((x / 4096) % 64) * 4096 + ((x / 64) % 64) * 64 + x % 64 == x);
        }
    }
}

/// The UTF-8 encoding of a text is the encodings of its characters in order:
/// the encoding of a + b is that of a followed by that of b.
pub proof fn lemma_utf8_concat(a: Seq<char>, b: Seq<char>)
    ensures
        utf8_spec(a + b) == utf8_spec(a) + utf8_spec(b),
    decreases b.len(),
{
    if b.len() == 0 {
        assert(a + b =~= a);
        assert(utf8_spec(a) + utf8_spec(b) =~= utf8_spec(a));
    } else {
        lemma_utf8_concat(a, b.drop_last());
        assert((a + b).drop_last() =~= a + b.drop_last());
        assert(utf8_spec(a) + utf8_spec(b.drop_last()) + utf8_char(b.last())
            =~= utf8_spec(a) + (utf8_spec(b.drop_last()) + utf8_char(b.last())));
    }
}

/// A text's UTF-8 bytes below 0x80 are exactly its ASCII characters: a text
/// with a character at or above U+0080 has more bytes than characters.
pub proof fn lemma_utf8_len(s: Seq<char>)
    ensures
        utf8_spec(s).len() >= s.len(),
        (exists|k: int| 0 <= k < s.len() && (#[trigger] s[k] as u32) >= 0x80) ==> utf8_spec(s).len() > s.len(),
    decreases s.len(),
{
    if s.len() > 0 {
        lemma_utf8_len(s.drop_last());
        lemma_utf8_char_law(s.last());
        if exists|k: int| 0 <= k < s.len() && (#[trigger] s[k] as u32) >= 0x80 {
            let k = choose|k: int| 0 <= k < s.len() && (#[trigger] s[k] as u32) >= 0x80;
            if k < s.len() - 1 {
                assert(s.drop_last()[k] == s[k]);
            }
        }
    }
}

} // verus!
