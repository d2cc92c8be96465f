# sirraya-ml-dsa-65

ML-DSA-65 (FIPS 204) signatures, a masked signer, RDF dataset canonicalization
(RDFC-1.0) and verification of W3C Verifiable Credentials with an ML-DSA-65
Data Integrity proof, written in Verus: the library's behaviour is stated in
`requires`/`ensures` contracts over mathematical models and proved.

## Key sizes

The parameters are those of FIPS 204's ML-DSA-65 (eta = 4, beta = 196): public
keys are 1952 bytes, secret keys 4032 bytes and signatures 3309 bytes.

## Layout

- `src/constants.rs`: the ML-DSA-65 parameters.
- `src/polynomial.rs`, `src/ntt.rs`: arithmetic modulo q, rounding and hints
  (with the proof that UseHint recovers the high bits), the NTT and its
  inverse (with the proofs that they are inverse to each other, additive, and
  that the NTT turns products modulo X^256 + 1 into coefficient-wise products).
- `src/sampling.rs`, `src/packing.rs`, `src/hints.rs`: expansion of seeds,
  byte encodings and the hint encoding, each with its roundtrip law.
- `src/mldsa_spec.rs`: the model of key generation, signing and verification
  that the contracts are stated in, and the proof that every signature made
  with a generated key verifies under the matching public key.
- `src/dilithium_masked.rs`: key generation, signing and verification.
  - `masked.rs`: signing on additive shares modulo q, with the proof that it
    gives the signatures of unmasked signing.
  - `diagnostic.rs`: what the inspection of keys and signatures computes.
- `src/rdfc.rs`: N-Quads parsing and serialization, the identifier issuer and
  RDFC-1.0 canonicalization.
  - `invariance.rs`: the canonical form does not change when blank nodes are
    renamed or the quads reordered, nor when the canonical form is
    canonicalized again (for datasets whose blank nodes have distinct
    first-degree hashes).
  - `reparse.rs`: the N-Quads lines the serializer writes parse back to the
    quads they were written from.
  - `renaming.rs`: every step of the algorithm, n-degree hashing included,
    commutes with renaming blank nodes, so the canonical form does not change
    when they are renamed.
- `src/vc_verifier.rs`: did:key identifiers, the JSON Canonicalization Scheme
  and credential verification.
- `tests/`: tests of the library on concrete values.
- `app/`: the command-line program (self-test, inspection, canonicalizer,
  credential verification) and the string-based interface for browsers.

Calls into outside crates (SHA-3, SHA-256, hexadecimal, base58, base64, JSON
string quoting, the operating system's random numbers) go through small
trusted wrappers whose contracts say what the crates compute.
