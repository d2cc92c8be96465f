//! Parameters of the ML-DSA-65 parameter set (FIPS 204, Tables 1 and 2):
//! public keys of 1952 bytes, secret keys of 4032 bytes and signatures of
//! 3309 bytes.

use vstd::prelude::*;

verus! {

/// Degree of the ring polynomial X^256 + 1.
pub const N: usize = 256;
/// The prime modulus q = 2^23 - 2^13 + 1.
pub const Q: i32 = 8380417;
/// Number of bits dropped from t.
pub const D: i32 = 13;
/// Rows of the matrix A.
pub const K: usize = 6;
/// Columns of the matrix A.
pub const L: usize = 5;
/// Bound on the coefficients of the secret vectors.
pub const ETA: i32 = 4;
/// Number of +-1 coefficients of the challenge polynomial.
pub const TAU: usize = 49;
/// tau * eta.
pub const BETA: i32 = 196;
/// Coefficient range of the masking vector y.
pub const GAMMA1: i32 = 524288;
/// Low-order rounding range, (q - 1) / 32.
pub const GAMMA2: i32 = 261888;
/// Maximum number of hint bits set in a signature.
pub const OMEGA: usize = 55;
/// Collision strength in bits.
pub const LAMBDA: usize = 192;
/// Size of the commitment hash c~ (lambda / 4 bytes).
pub const CTILDEBYTES: usize = 48;

/// Size of an encoded public key: rho (32) followed by t1 (6 x 320).
pub const PUBLICKEYBYTES: usize = 1952;
/// Size of an encoded secret key: rho (32), K (32), tr (64), s1 (5 x 128),
/// s2 (6 x 128) and t0 (6 x 416).
pub const SECRETKEYBYTES: usize = 4032;
/// Size of an encoded signature: c~, z, hints.
pub const SIGNBYTES: usize = 3309;

pub const SEEDBYTES: usize = 32;
pub const KEYBYTES: usize = 32;
pub const TRBYTES: usize = 64;
pub const RNDBYTES: usize = 32;
pub const MUBYTES: usize = 64;
pub const RHO_PRIME_BYTES: usize = 64;

/// Bytes of a packed t1 polynomial (10 bits per coefficient).
pub const POLYT1_PACKEDBYTES: usize = 320;
/// Bytes of a packed t0 polynomial (13 bits per coefficient).
pub const POLYT0_PACKEDBYTES: usize = 416;
/// Bytes of a packed eta-bounded polynomial (4 bits per coefficient).
pub const POLYETA_PACKEDBYTES: usize = 128;
/// Bytes of a packed z polynomial (20 bits per coefficient).
pub const POLYZ_PACKEDBYTES: usize = 640;
/// Bytes of a packed w1 polynomial (4 bits per coefficient).
pub const POLYW1_PACKEDBYTES: usize = 128;

/// q^{-1} mod 2^32.
pub const QINV: i32 = 58728449;
/// 2^32 mod q.
pub const MONT: i32 = 4193792;

/// Size of the packed t1 vector (K x 320).
pub const T1_BYTES: usize = 1920;
/// Size of the packed t0 vector (K x 416).
pub const T0_BYTES: usize = 2496;
/// Size of the packed s1 vector (L x 128).
pub const S1_BYTES: usize = 640;
/// Size of the packed s2 vector (K x 128).
pub const S2_BYTES: usize = 768;
/// Size of the packed z vector (L x 640).
pub const Z_BYTES: usize = 3200;
/// Size of the packed hint vector (OMEGA + K).
pub const H_BYTES: usize = 61;

/// zetas[k] = 1753^{BitRev8(k)} mod q (FIPS 204, Appendix B); entry 0 is unused.
pub const ZETAS: [i32; 256] = [
    0, 4808194, 3765607, 3761513, 5178923, 5496691, 5234739, 5178987, 7778734, 3542485,
    2682288, 2129892, 3764867, 7375178, 557458, 7159240, 5010068, 4317364, 2663378, 6705802,
    4855975, 7946292, 676590, 7044481, 5152541, 1714295, 2453983, 1460718, 7737789, 4795319,
    2815639, 2283733, 3602218, 3182878, 2740543, 4793971, 5269599, 2101410, 3704823, 1159875,
    394148, 928749, 1095468, 4874037, 2071829, 4361428, 3241972, 2156050, 3415069, 1759347,
    7562881, 4805951, 3756790, 6444618, 6663429, 4430364, 5483103, 3192354, 556856, 3870317,
    2917338, 1853806, 3345963, 1858416, 3073009, 1277625, 5744944, 3852015, 4183372, 5157610,
    5258977, 8106357, 2508980, 2028118, 1937570, 4564692, 2811291, 5396636, 7270901, 4158088,
    1528066, 482649, 1148858, 5418153, 7814814, 169688, 2462444, 5046034, 4213992, 4892034,
    1987814, 5183169, 1736313, 235407, 5130263, 3258457, 5801164, 1787943, 5989328, 6125690,
    3482206, 4197502, 7080401, 6018354, 7062739, 2461387, 3035980, 621164, 3901472, 7153756,
    2925816, 3374250, 1356448, 5604662, 2683270, 5601629, 4912752, 2312838, 7727142, 7921254,
    348812, 8052569, 1011223, 6026202, 4561790, 6458164, 6143691, 1744507, 1753, 6444997,
    5720892, 6924527, 2660408, 6600190, 8321269, 2772600, 1182243, 87208, 636927, 4415111,
    4423672, 6084020, 5095502, 4663471, 8352605, 822541, 1009365, 5926272, 6400920, 1596822,
    4423473, 4620952, 6695264, 4969849, 2678278, 4611469, 4829411, 635956, 8129971, 5925040,
    4234153, 6607829, 2192938, 6653329, 2387513, 4768667, 8111961, 5199961, 3747250, 2296099,
    1239911, 4541938, 3195676, 2642980, 1254190, 8368000, 2998219, 141835, 8291116, 2513018,
    7025525, 613238, 7070156, 6161950, 7921677, 6458423, 4040196, 4908348, 2039144, 6500539,
    7561656, 6201452, 6757063, 2105286, 6006015, 6346610, 586241, 7200804, 527981, 5637006,
    6903432, 1994046, 2491325, 6987258, 507927, 7192532, 7655613, 6545891, 5346675, 8041997,
    2647994, 3009748, 5767564, 4148469, 749577, 4357667, 3980599, 2569011, 6764887, 1723229,
    1665318, 2028038, 1163598, 5011144, 3994671, 8368538, 7009900, 3020393, 3363542, 214880,
    545376, 7609976, 3105558, 7277073, 508145, 7826699, 860144, 3430436, 140244, 6866265,
    6195333, 3123762, 2358373, 6187330, 5365997, 6663603, 2926054, 7987710, 8077412, 3531229,
    4405932, 4606686, 1900052, 7598542, 1054478, 7648983,
];

} // verus!
