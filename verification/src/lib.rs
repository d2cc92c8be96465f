//! ML-DSA-65 (FIPS 204) signatures with RDF dataset canonicalization support.

pub mod constants;
pub mod polynomial;
pub mod ntt;
pub mod sampling;
pub mod packing;
pub mod hints;
pub mod mldsa_spec;
pub mod dilithium_masked;
pub mod rdfc;
pub mod vc_verifier;

pub use dilithium_masked::MlDsa87 as MlDsa65;
pub use constants::{PUBLICKEYBYTES, SECRETKEYBYTES, SIGNBYTES};
