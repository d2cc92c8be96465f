//! Bit-packing of polynomials (FIPS 204, Section 7.2).
//!
//! A format packs groups of `gc` coefficients into `gb` bytes: each coefficient
//! is turned into a digit below m = 2^w, the digits form the base-m number
//! d0 + m*d1 + ..., and that number is written as `gb` little-endian bytes.

use vstd::prelude::*;
use crate::constants::{N, POLYT1_PACKEDBYTES, POLYT0_PACKEDBYTES, POLYETA_PACKEDBYTES,
    POLYZ_PACKEDBYTES, POLYW1_PACKEDBYTES, ETA, GAMMA1, D};
use crate::polynomial::Poly;

verus! {

/// b^e for e >= 0.
pub open spec fn pow_int(b: int, e: int) -> int
    decreases e,
{
    if e <= 0 { 1 } else { b * pow_int(b, e - 1) }
}

/// t[start] + m*t[start+1] + ... + m^(n-1)*t[start+n-1].
pub open spec fn digits_value(t: Seq<int>, start: int, n: int, m: int) -> int
    decreases n,
{
    if n <= 0 { 0 } else { t[start] + m * digits_value(t, start + 1, n - 1, m) }
}

/// The little-endian value of the n bytes of b from `start`.
pub open spec fn bytes_value(b: Seq<u8>, start: int, n: int) -> int
    decreases n,
{
    if n <= 0 { 0 } else { b[start] as int + 256 * bytes_value(b, start + 1, n - 1) }
}

/// Packing of digits t: byte n is byte (n mod gb) of the little-endian encoding
/// of the base-m value of the digits of group n / gb.
pub open spec fn pack_digits(t: Seq<int>, gb: int, gc: int, m: int, len: nat) -> Seq<u8> {
    Seq::new(len, |n: int| ((digits_value(t, (n / gb) * gc, gc, m) / pow_int(256, n % gb)) % 256) as u8)
}

/// Unpacking into digits: digit i is digit (i mod gc), base m, of the
/// little-endian value of the bytes of group i / gc.
pub open spec fn unpack_digits(b: Seq<u8>, gb: int, gc: int, m: int, count: nat) -> Seq<int> {
    Seq::new(count, |i: int| (bytes_value(b, (i / gc) * gb, gb) / pow_int(m, i % gc)) % m)
}

// ---- t1: 10 bits per coefficient (Algorithm 22) ----

/// Digits of t1 packing: the coefficients modulo 2^10.
pub open spec fn t1_digits(c: Seq<int>) -> Seq<int> {
    Seq::new(256, |i: int| c[i] % 1024)
}

/// SimpleBitPack(t1, 2^10 - 1).
pub open spec fn polyt1_pack_spec(c: Seq<int>) -> Seq<u8> {
    pack_digits(t1_digits(c), 5, 4, 1024, 320)
}

/// SimpleBitUnpack for t1.
pub open spec fn polyt1_unpack_spec(b: Seq<u8>) -> Seq<int> {
    unpack_digits(b, 5, 4, 1024, 256)
}

proof fn lemma_low_bits_i32(c: i32)
    by (bit_vector)
    ensures
        ((c as u32) & 1023u32) as i32 == c % 1024i32,
        ((c as u32) & 1023u32) < 1024u32,
        ((c as u32) & 15u32) as i32 == c % 16i32,
        (c & 15i32) == c % 16i32,
{
}

proof fn lemma_t1_pack_group(t0: u32, t1: u32, t2: u32, t3: u32)
    by (bit_vector)
    requires
        t0 < 1024u32,
        t1 < 1024u32,
        t2 < 1024u32,
        t3 < 1024u32,
    ensures
        ({
            let f = ((t0 as u64) + (t1 as u64) * 1024u64 + (t2 as u64) * 1048576u64
                + (t3 as u64) * 1073741824u64) as u64;
            &&& (t0 as u8) == (f % 256u64) as u8
            &&& ((t0 >> 8u32 | t1 << 2u32) as u8) == ((f / 256u64) % 256u64) as u8
            &&& ((t1 >> 6u32 | t2 << 4u32) as u8) == ((f / 65536u64) % 256u64) as u8
            &&& ((t2 >> 4u32 | t3 << 6u32) as u8) == ((f / 16777216u64) % 256u64) as u8
            &&& ((t3 >> 2u32) as u8) == ((f / 4294967296u64) % 256u64) as u8
        }),
{
}

proof fn lemma_t1_unpack_group(b0: u8, b1: u8, b2: u8, b3: u8, b4: u8)
    by (bit_vector)
    ensures
        ({
            let g = ((b0 as u64) + (b1 as u64) * 256u64 + (b2 as u64) * 65536u64
                + (b3 as u64) * 16777216u64 + (b4 as u64) * 4294967296u64) as u64;
            &&& 0i32 <= (((b0 as i32) | ((b1 as i32) << 8i32)) & 0x3FFi32)
            &&& 0i32 <= ((((b1 as i32) >> 2i32) | ((b2 as i32) << 6i32)) & 0x3FFi32)
            &&& 0i32 <= ((((b2 as i32) >> 4i32) | ((b3 as i32) << 4i32)) & 0x3FFi32)
            &&& 0i32 <= ((((b3 as i32) >> 6i32) | ((b4 as i32) << 2i32)) & 0x3FFi32)
            &&& (((b0 as i32) | ((b1 as i32) << 8i32)) & 0x3FFi32) as u64 == g % 1024u64
            &&& ((((b1 as i32) >> 2i32) | ((b2 as i32) << 6i32)) & 0x3FFi32) as u64
                == (g / 1024u64) % 1024u64
            &&& ((((b2 as i32) >> 4i32) | ((b3 as i32) << 4i32)) & 0x3FFi32) as u64
                == (g / 1048576u64) % 1024u64
            &&& ((((b3 as i32) >> 6i32) | ((b4 as i32) << 2i32)) & 0x3FFi32) as u64
                == (g / 1073741824u64) % 1024u64
        }),
{
}

/// Packs t1 (Algorithm 22): 10 bits per coefficient, taken modulo 2^10.
#[verifier::spinoff_prover]
#[verifier::rlimit(40)]
pub fn polyt1_pack(buf: &mut [u8; POLYT1_PACKEDBYTES], p: &Poly)
    ensures
        final(buf)@ == polyt1_pack_spec(p@),
{
    let ghost t = t1_digits(p@);
    let mut i: usize = 0;
    while i < N / 4
        invariant
            0 <= i <= 64,
            buf@.len() == 320,
            t == t1_digits(p@),
            forall|n: int| 0 <= n < 5 * i ==> #[trigger] buf@[n] == polyt1_pack_spec(p@)[n],
        decreases 64 - i,
    {
        proof {
            lemma_low_bits_i32(p.coeffs@[4 * i as int]);
            lemma_low_bits_i32(p.coeffs@[4 * i as int + 1]);
            lemma_low_bits_i32(p.coeffs@[4 * i as int + 2]);
            lemma_low_bits_i32(p.coeffs@[4 * i as int + 3]);
        }
        let t0 = p.coeffs[4 * i] as u32 & 0x3FF;
        let t1 = p.coeffs[4 * i + 1] as u32 & 0x3FF;
        let t2 = p.coeffs[4 * i + 2] as u32 & 0x3FF;
        let t3 = p.coeffs[4 * i + 3] as u32 & 0x3FF;
        let b = i * 5;
        buf[b] = t0 as u8;
        buf[b + 1] = (t0 >> 8 | t1 << 2) as u8;
        buf[b + 2] = (t1 >> 6 | t2 << 4) as u8;
        buf[b + 3] = (t2 >> 4 | t3 << 6) as u8;
        buf[b + 4] = (t3 >> 2) as u8;
        proof {
            lemma_t1_pack_group(t0, t1, t2, t3);
            reveal_with_fuel(digits_value, 5);
            reveal_with_fuel(pow_int, 5);
            let gi = 4 * i as int;
            let f = digits_value(t, gi, 4, 1024);
            assert(f == t0 + 1024 * (t1 + 1024 * (t2 + 1024 * (t3 as int))));
            assert forall|n: int| 5 * i <= n < 5 * i + 5 implies #[trigger] buf@[n]
                == polyt1_pack_spec(p@)[n] by {
                assert(n / 5 == i);
                assert((n / 5) * 4 == gi);
            }
        }
        i += 1;
    }
    assert(buf@ =~= polyt1_pack_spec(p@));
}

/// Unpacks t1 (Algorithm 23): 10-bit coefficients in [0, 1023].
pub fn polyt1_unpack(buf: &[u8; POLYT1_PACKEDBYTES]) -> (p: Poly)
    ensures
        p@ == polyt1_unpack_spec(buf@),
        forall|i: int| 0 <= i < 256 ==> 0 <= #[trigger] p@[i] < 1024,
{
    let mut p = Poly::zero();
    let mut i: usize = 0;
    while i < N / 4
        invariant
            0 <= i <= 64,
            p.coeffs@.len() == 256,
            buf@.len() == 320,
            forall|n: int| 0 <= n < 4 * i ==> #[trigger] p.coeffs@[n] as int
                == polyt1_unpack_spec(buf@)[n],
        decreases 64 - i,
    {
        let b = i * 5;
        p.coeffs[4 * i] = ((buf[b] as i32) | ((buf[b + 1] as i32) << 8)) & 0x3FF;
        p.coeffs[4 * i + 1] = ((buf[b + 1] as i32 >> 2) | ((buf[b + 2] as i32) << 6)) & 0x3FF;
        p.coeffs[4 * i + 2] = ((buf[b + 2] as i32 >> 4) | ((buf[b + 3] as i32) << 4)) & 0x3FF;
        p.coeffs[4 * i + 3] = ((buf[b + 3] as i32 >> 6) | ((buf[b + 4] as i32) << 2)) & 0x3FF;
        proof {
            lemma_t1_unpack_group(buf@[b as int], buf@[b + 1], buf@[b + 2], buf@[b + 3], buf@[b + 4]);
            reveal_with_fuel(bytes_value, 6);
            reveal_with_fuel(pow_int, 5);
            let g = bytes_value(buf@, b as int, 5);
            assert(g == buf@[b as int] + 256 * (buf@[b + 1] + 256 * (buf@[b + 2] + 256 * (buf@[b + 3]
                + 256 * (buf@[b + 4] as int)))));
            assert(pow_int(1024, 0) == 1 && pow_int(1024, 1) == 1024 && pow_int(1024, 2) == 1048576
                && pow_int(1024, 3) == 1073741824);
            assert forall|n: int| 4 * i <= n < 4 * i + 4 implies #[trigger] p.coeffs@[n] as int
                == polyt1_unpack_spec(buf@)[n] by {
                assert(n / 4 == i);
                assert((n / 4) * 5 == b);
                assert(n % 4 == n - 4 * i);
            }
        }
        i += 1;
    }
    assert(p@ =~= polyt1_unpack_spec(buf@));
    p
}

} // verus!

verus! {

proof fn lemma_t1_roundtrip_group(t0: u64, t1: u64, t2: u64, t3: u64)
    by (bit_vector)
    requires
        t0 < 1024u64,
        t1 < 1024u64,
        t2 < 1024u64,
        t3 < 1024u64,
    ensures
        ({
            let f = (t0 + t1 * 1024u64 + t2 * 1048576u64 + t3 * 1073741824u64) as u64;
            let g = ((f % 256u64) + ((f / 256u64) % 256u64) * 256u64
                + ((f / 65536u64) % 256u64) * 65536u64
                + ((f / 16777216u64) % 256u64) * 16777216u64
                + ((f / 4294967296u64) % 256u64) * 4294967296u64) as u64;
            &&& g == f
            &&& f % 1024u64 == t0
            &&& (f / 1024u64) % 1024u64 == t1
            &&& (f / 1048576u64) % 1024u64 == t2
            &&& (f / 1073741824u64) % 1024u64 == t3
        }),
{
}

#[verifier::spinoff_prover]
proof fn lemma_t1_roundtrip_at(c: Seq<int>, i: int)
    requires
        c.len() == 256,
        forall|i: int| 0 <= i < 256 ==> 0 <= #[trigger] c[i] < 1024,
        0 <= i < 256,
    ensures
        polyt1_unpack_spec(polyt1_pack_spec(c))[i] == c[i],
{
    let b = polyt1_pack_spec(c);
    let t = t1_digits(c);
        let g = i / 4;
        let s = 4 * g;
        assert(0 <= g < 64);
        reveal_with_fuel(digits_value, 5);
        reveal_with_fuel(bytes_value, 6);
        reveal_with_fuel(pow_int, 5);
        vstd::arithmetic::div_mod::lemma_small_mod(c[s] as nat, 1024);
        vstd::arithmetic::div_mod::lemma_small_mod(c[s + 1] as nat, 1024);
        vstd::arithmetic::div_mod::lemma_small_mod(c[s + 2] as nat, 1024);
        vstd::arithmetic::div_mod::lemma_small_mod(c[s + 3] as nat, 1024);
        let t0 = c[s] as u64;
        let t1 = c[s + 1] as u64;
        let t2 = c[s + 2] as u64;
        let t3 = c[s + 3] as u64;
        lemma_t1_roundtrip_group(t0, t1, t2, t3);
        let f = digits_value(t, s, 4, 1024);
        assert(f == t0 + 1024 * (t1 + 1024 * (t2 + 1024 * (t3 as int))));
        assert forall|j: int| 0 <= j < 5 implies #[trigger] b[5 * g + j] as int
            == (f / pow_int(256, j)) % 256 by {
            assert((5 * g + j) / 5 == g);
            assert((5 * g + j) % 5 == j);
        }
        assert(bytes_value(b, 5 * g, 5) == f);
        assert(i % 4 == i - s);
        assert((i / 4) * 5 == 5 * g);
}

/// Unpacking a packed t1 polynomial gives back its coefficients, when they lie in [0, 1024).
pub proof fn lemma_t1_roundtrip(c: Seq<int>)
    requires
        c.len() == 256,
        forall|i: int| 0 <= i < 256 ==> 0 <= #[trigger] c[i] < 1024,
    ensures
        polyt1_unpack_spec(polyt1_pack_spec(c)) == c,
{
    let b = polyt1_pack_spec(c);
    assert forall|i: int| 0 <= i < 256 implies #[trigger] polyt1_unpack_spec(b)[i] == c[i] by {
        lemma_t1_roundtrip_at(c, i);
    }
    assert(polyt1_unpack_spec(b) =~= c);
}

} // verus!

verus! {

// ---- z: 20 bits per coefficient, gamma1 - z (Algorithm 26) ----

/// Digits of z packing: gamma1 - c modulo 2^20.
pub open spec fn z_digits(c: Seq<int>) -> Seq<int> {
    Seq::new(256, |i: int| (524288 - c[i]) % 1048576)
}

/// BitPack(z, gamma1 - 1, gamma1).
pub open spec fn polyz_pack_spec(c: Seq<int>) -> Seq<u8> {
    pack_digits(z_digits(c), 5, 2, 1048576, 640)
}

/// BitUnpack(b, gamma1 - 1, gamma1): coefficients gamma1 - d for 20-bit digits d.
pub open spec fn polyz_unpack_spec(b: Seq<u8>) -> Seq<int> {
    Seq::new(256, |i: int| 524288 - unpack_digits(b, 5, 2, 1048576, 256)[i])
}

/// Coefficients on which gamma1 - c stays within i32.
pub open spec fn z_pack_ok(c: Seq<int>) -> bool {
    forall|i: int| 0 <= i < 256 ==> 524288 - i32::MAX <= #[trigger] c[i]
}

proof fn lemma_low20_i32(x: i32)
    by (bit_vector)
    ensures
        ((x as u32) & 0xFFFFFu32) as i32 == x % 1048576i32,
        ((x as u32) & 0xFFFFFu32) < 1048576u32,
{
}

proof fn lemma_z_pack_group(v0: u32, v1: u32)
    by (bit_vector)
    requires
        v0 < 1048576u32,
        v1 < 1048576u32,
    ensures
        ({
            let f = ((v0 as u64) + (v1 as u64) * 1048576u64) as u64;
            &&& (v0 as u8) == (f % 256u64) as u8
            &&& ((v0 >> 8u32) as u8) == ((f / 256u64) % 256u64) as u8
            &&& ((v0 >> 16u32 | v1 << 4u32) as u8) == ((f / 65536u64) % 256u64) as u8
            &&& ((v1 >> 4u32) as u8) == ((f / 16777216u64) % 256u64) as u8
            &&& ((v1 >> 12u32) as u8) == ((f / 4294967296u64) % 256u64) as u8
        }),
{
}

proof fn lemma_z_unpack_group(b0: u8, b1: u8, b2: u8, b3: u8, b4: u8)
    by (bit_vector)
    ensures
        ({
            let g = ((b0 as u64) + (b1 as u64) * 256u64 + (b2 as u64) * 65536u64
                + (b3 as u64) * 16777216u64 + (b4 as u64) * 4294967296u64) as u64;
            let v0 = (b0 as u32) | ((b1 as u32) << 8u32) | (((b2 as u32) & 0x0Fu32) << 16u32);
            let v1 = ((b2 as u32) >> 4u32) | ((b3 as u32) << 4u32) | ((b4 as u32) << 12u32);
            &&& v0 < 1048576u32
            &&& v1 < 1048576u32
            &&& v0 as u64 == g % 1048576u64
            &&& v1 as u64 == (g / 1048576u64) % 1048576u64
        }),
{
}

proof fn lemma_z_roundtrip_group(t0: u64, t1: u64)
    by (bit_vector)
    requires
        t0 < 1048576u64,
        t1 < 1048576u64,
    ensures
        ({
            let f = (t0 + t1 * 1048576u64) as u64;
            let g = ((f % 256u64) + ((f / 256u64) % 256u64) * 256u64
                + ((f / 65536u64) % 256u64) * 65536u64
                + ((f / 16777216u64) % 256u64) * 16777216u64
                + ((f / 4294967296u64) % 256u64) * 4294967296u64) as u64;
            &&& g == f
            &&& f % 1048576u64 == t0
            &&& (f / 1048576u64) % 1048576u64 == t1
        }),
{
}

/// Packs z (Algorithm 26): 20 bits per coefficient, gamma1 - c modulo 2^20.
#[verifier::spinoff_prover]
#[verifier::rlimit(40)]
pub fn polyz_pack(buf: &mut [u8; POLYZ_PACKEDBYTES], p: &Poly)
    requires
        z_pack_ok(p@),
    ensures
        final(buf)@ == polyz_pack_spec(p@),
{
    let ghost t = z_digits(p@);
    let mut i: usize = 0;
    while i < N / 2
        invariant
            0 <= i <= 128,
            buf@.len() == 640,
            t == z_digits(p@),
            z_pack_ok(p@),
            forall|n: int| 0 <= n < 5 * i ==> #[trigger] buf@[n] == polyz_pack_spec(p@)[n],
        decreases 128 - i,
    {
        assert(524288 - i32::MAX <= p@[2 * i as int] && 524288 - i32::MAX <= p@[2 * i as int + 1]);
        let x0 = GAMMA1 - p.coeffs[2 * i];
        let x1 = GAMMA1 - p.coeffs[2 * i + 1];
        proof {
            lemma_low20_i32(x0);
            lemma_low20_i32(x1);
        }
        let v0 = x0 as u32 & 0xFFFFF;
        let v1 = x1 as u32 & 0xFFFFF;
        let b = i * 5;
        buf[b] = v0 as u8;
        buf[b + 1] = (v0 >> 8) as u8;
        buf[b + 2] = (v0 >> 16 | v1 << 4) as u8;
        buf[b + 3] = (v1 >> 4) as u8;
        buf[b + 4] = (v1 >> 12) as u8;
        proof {
            lemma_z_pack_group(v0, v1);
            reveal_with_fuel(digits_value, 3);
            reveal_with_fuel(pow_int, 5);
            let gi = 2 * i as int;
            let f = digits_value(t, gi, 2, 1048576);
            assert(f == v0 + 1048576 * (v1 as int));
            assert forall|n: int| 5 * i <= n < 5 * i + 5 implies #[trigger] buf@[n]
                == polyz_pack_spec(p@)[n] by {
                assert(n / 5 == i);
                assert((n / 5) * 2 == gi);
            }
        }
        i += 1;
    }
    assert(buf@ =~= polyz_pack_spec(p@));
}

/// Unpacks z (Algorithm 27): coefficients in (gamma1 - 2^20, gamma1].
pub fn polyz_unpack(buf: &[u8; POLYZ_PACKEDBYTES]) -> (p: Poly)
    ensures
        p@ == polyz_unpack_spec(buf@),
        forall|i: int| 0 <= i < 256 ==> 524288 - 1048576 < #[trigger] p@[i] <= 524288,
{
    let mut p = Poly::zero();
    let mut i: usize = 0;
    while i < N / 2
        invariant
            0 <= i <= 128,
            p.coeffs@.len() == 256,
            buf@.len() == 640,
            forall|n: int| 0 <= n < 2 * i ==> #[trigger] p.coeffs@[n] as int
                == polyz_unpack_spec(buf@)[n],
            forall|n: int| 0 <= n < 2 * i ==> 524288 - 1048576 < #[trigger] p.coeffs@[n] <= 524288,
        decreases 128 - i,
    {
        let b = i * 5;
        let v0 = (buf[b] as u32) | ((buf[b + 1] as u32) << 8) | ((buf[b + 2] as u32 & 0x0F) << 16);
        let v1 = ((buf[b + 2] as u32) >> 4) | ((buf[b + 3] as u32) << 4) | ((buf[b + 4] as u32) << 12);
        proof {
            lemma_z_unpack_group(buf@[b as int], buf@[b + 1], buf@[b + 2], buf@[b + 3], buf@[b + 4]);
        }
        p.coeffs[2 * i] = GAMMA1 - v0 as i32;
        p.coeffs[2 * i + 1] = GAMMA1 - v1 as i32;
        proof {
            reveal_with_fuel(bytes_value, 6);
            reveal_with_fuel(pow_int, 3);
            let g = bytes_value(buf@, b as int, 5);
            assert(g == buf@[b as int] + 256 * (buf@[b + 1] + 256 * (buf@[b + 2] + 256 * (buf@[b + 3]
                + 256 * (buf@[b + 4] as int)))));
            assert(pow_int(1048576, 0) == 1 && pow_int(1048576, 1) == 1048576);
            assert forall|n: int| 2 * i <= n < 2 * i + 2 implies #[trigger] p.coeffs@[n] as int
                == polyz_unpack_spec(buf@)[n] by {
                assert(n / 2 == i);
                assert((n / 2) * 5 == b);
                assert(n % 2 == n - 2 * i);
            }
        }
        i += 1;
    }
    assert(p@ =~= polyz_unpack_spec(buf@));
    p
}

#[verifier::spinoff_prover]
proof fn lemma_z_roundtrip_at(c: Seq<int>, i: int)
    requires
        c.len() == 256,
        forall|i: int| 0 <= i < 256 ==> 524288 - 1048576 < #[trigger] c[i] <= 524288,
        0 <= i < 256,
    ensures
        polyz_unpack_spec(polyz_pack_spec(c))[i] == c[i],
{
    let b = polyz_pack_spec(c);
    let t = z_digits(c);
        let g = i / 2;
        let s = 2 * g;
        assert(0 <= g < 128);
        reveal_with_fuel(digits_value, 3);
        reveal_with_fuel(bytes_value, 6);
        reveal_with_fuel(pow_int, 5);
        vstd::arithmetic::div_mod::lemma_small_mod((524288 - c[s]) as nat, 1048576);
        vstd::arithmetic::div_mod::lemma_small_mod((524288 - c[s + 1]) as nat, 1048576);
        let t0 = (524288 - c[s]) as u64;
        let t1 = (524288 - c[s + 1]) as u64;
        lemma_z_roundtrip_group(t0, t1);
        let f = digits_value(t, s, 2, 1048576);
        assert(f == t0 + 1048576 * (t1 as int));
        assert forall|j: int| 0 <= j < 5 implies #[trigger] b[5 * g + j] as int
            == (f / pow_int(256, j)) % 256 by {
            assert((5 * g + j) / 5 == g);
            assert((5 * g + j) % 5 == j);
        }
        assert(bytes_value(b, 5 * g, 5) == f);
        assert(i % 2 == i - s);
        assert((i / 2) * 5 == 5 * g);
}

/// Unpacking a packed z polynomial gives back its coefficients, when they lie in
/// (gamma1 - 2^20, gamma1].
pub proof fn lemma_z_roundtrip(c: Seq<int>)
    requires
        c.len() == 256,
        forall|i: int| 0 <= i < 256 ==> 524288 - 1048576 < #[trigger] c[i] <= 524288,
    ensures
        polyz_unpack_spec(polyz_pack_spec(c)) == c,
{
    let b = polyz_pack_spec(c);
    assert forall|i: int| 0 <= i < 256 implies #[trigger] polyz_unpack_spec(b)[i] == c[i] by {
        lemma_z_roundtrip_at(c, i);
    }
    assert(polyz_unpack_spec(b) =~= c);
}

} // verus!

verus! {

proof fn lemma_t0_pack_group(t0: u32, t1: u32, t2: u32, t3: u32, t4: u32, t5: u32, t6: u32, t7: u32)
    by (bit_vector)
    requires
        t0 < 8192u32,
        t1 < 8192u32,
        t2 < 8192u32,
        t3 < 8192u32,
        t4 < 8192u32,
        t5 < 8192u32,
        t6 < 8192u32,
        t7 < 8192u32,
    ensures
        ({
            let f = ((t0 as u128) * 1u128 + (t1 as u128) * 8192u128 + (t2 as u128) * 67108864u128 + (t3 as u128) * 549755813888u128 + (t4 as u128) * 4503599627370496u128 + (t5 as u128) * 36893488147419103232u128 + (t6 as u128) * 302231454903657293676544u128 + (t7 as u128) * 2475880078570760549798248448u128) as u128;
            &&& ((t0) as u8) == ((f / 1u128) % 256u128) as u8
            &&& ((t0 >> 8u32 | t1 << 5u32) as u8) == ((f / 256u128) % 256u128) as u8
            &&& ((t1 >> 3u32) as u8) == ((f / 65536u128) % 256u128) as u8
            &&& ((t1 >> 11u32 | t2 << 2u32) as u8) == ((f / 16777216u128) % 256u128) as u8
            &&& ((t2 >> 6u32 | t3 << 7u32) as u8) == ((f / 4294967296u128) % 256u128) as u8
            &&& ((t3 >> 1u32) as u8) == ((f / 1099511627776u128) % 256u128) as u8
            &&& ((t3 >> 9u32 | t4 << 4u32) as u8) == ((f / 281474976710656u128) % 256u128) as u8
            &&& ((t4 >> 4u32) as u8) == ((f / 72057594037927936u128) % 256u128) as u8
            &&& ((t4 >> 12u32 | t5 << 1u32) as u8) == ((f / 18446744073709551616u128) % 256u128) as u8
            &&& ((t5 >> 7u32 | t6 << 6u32) as u8) == ((f / 4722366482869645213696u128) % 256u128) as u8
            &&& ((t6 >> 2u32) as u8) == ((f / 1208925819614629174706176u128) % 256u128) as u8
            &&& ((t6 >> 10u32 | t7 << 3u32) as u8) == ((f / 309485009821345068724781056u128) % 256u128) as u8
            &&& ((t7 >> 5u32) as u8) == ((f / 79228162514264337593543950336u128) % 256u128) as u8
        }),
{
}

proof fn lemma_t0_unpack_group(b0: i32, b1: i32, b2: i32, b3: i32, b4: i32, b5: i32, b6: i32, b7: i32, b8: i32, b9: i32, b10: i32, b11: i32, b12: i32)
    by (bit_vector)
    requires
        0i32 <= b0 < 256i32,
        0i32 <= b1 < 256i32,
        0i32 <= b2 < 256i32,
        0i32 <= b3 < 256i32,
        0i32 <= b4 < 256i32,
        0i32 <= b5 < 256i32,
        0i32 <= b6 < 256i32,
        0i32 <= b7 < 256i32,
        0i32 <= b8 < 256i32,
        0i32 <= b9 < 256i32,
        0i32 <= b10 < 256i32,
        0i32 <= b11 < 256i32,
        0i32 <= b12 < 256i32,
    ensures
        ({
            let g = ((b0 as u128) * 1u128 + (b1 as u128) * 256u128 + (b2 as u128) * 65536u128 + (b3 as u128) * 16777216u128 + (b4 as u128) * 4294967296u128 + (b5 as u128) * 1099511627776u128 + (b6 as u128) * 281474976710656u128 + (b7 as u128) * 72057594037927936u128 + (b8 as u128) * 18446744073709551616u128 + (b9 as u128) * 4722366482869645213696u128 + (b10 as u128) * 1208925819614629174706176u128 + (b11 as u128) * 309485009821345068724781056u128 + (b12 as u128) * 79228162514264337593543950336u128) as u128;
            &&& 0i32 <= ((b0 | (b1 << 8i32)) & 8191i32) && (((b0 | (b1 << 8i32)) & 8191i32) as u128) == (g / 1u128) % 8192u128
            &&& 0i32 <= (((b1 >> 5i32) | (b2 << 3i32) | (b3 << 11i32)) & 8191i32) && ((((b1 >> 5i32) | (b2 << 3i32) | (b3 << 11i32)) & 8191i32) as u128) == (g / 8192u128) % 8192u128
            &&& 0i32 <= (((b3 >> 2i32) | (b4 << 6i32)) & 8191i32) && ((((b3 >> 2i32) | (b4 << 6i32)) & 8191i32) as u128) == (g / 67108864u128) % 8192u128
            &&& 0i32 <= (((b4 >> 7i32) | (b5 << 1i32) | (b6 << 9i32)) & 8191i32) && ((((b4 >> 7i32) | (b5 << 1i32) | (b6 << 9i32)) & 8191i32) as u128) == (g / 549755813888u128) % 8192u128
            &&& 0i32 <= (((b6 >> 4i32) | (b7 << 4i32) | (b8 << 12i32)) & 8191i32) && ((((b6 >> 4i32) | (b7 << 4i32) | (b8 << 12i32)) & 8191i32) as u128) == (g / 4503599627370496u128) % 8192u128
            &&& 0i32 <= (((b8 >> 1i32) | (b9 << 7i32)) & 8191i32) && ((((b8 >> 1i32) | (b9 << 7i32)) & 8191i32) as u128) == (g / 36893488147419103232u128) % 8192u128
            &&& 0i32 <= (((b9 >> 6i32) | (b10 << 2i32) | (b11 << 10i32)) & 8191i32) && ((((b9 >> 6i32) | (b10 << 2i32) | (b11 << 10i32)) & 8191i32) as u128) == (g / 302231454903657293676544u128) % 8192u128
            &&& 0i32 <= (((b11 >> 3i32) | (b12 << 5i32)) & 8191i32) && ((((b11 >> 3i32) | (b12 << 5i32)) & 8191i32) as u128) == (g / 2475880078570760549798248448u128) % 8192u128
        }),
{
}

proof fn lemma_t0_roundtrip_group(t0: u128, t1: u128, t2: u128, t3: u128, t4: u128, t5: u128, t6: u128, t7: u128)
    by (bit_vector)
    requires
        t0 < 8192u128,
        t1 < 8192u128,
        t2 < 8192u128,
        t3 < 8192u128,
        t4 < 8192u128,
        t5 < 8192u128,
        t6 < 8192u128,
        t7 < 8192u128,
    ensures
        ({
            let f = (t0 * 1u128 + t1 * 8192u128 + t2 * 67108864u128 + t3 * 549755813888u128 + t4 * 4503599627370496u128 + t5 * 36893488147419103232u128 + t6 * 302231454903657293676544u128 + t7 * 2475880078570760549798248448u128) as u128;
            let g = (((f / 1u128) % 256u128) * 1u128 + ((f / 256u128) % 256u128) * 256u128 + ((f / 65536u128) % 256u128) * 65536u128 + ((f / 16777216u128) % 256u128) * 16777216u128 + ((f / 4294967296u128) % 256u128) * 4294967296u128 + ((f / 1099511627776u128) % 256u128) * 1099511627776u128 + ((f / 281474976710656u128) % 256u128) * 281474976710656u128 + ((f / 72057594037927936u128) % 256u128) * 72057594037927936u128 + ((f / 18446744073709551616u128) % 256u128) * 18446744073709551616u128 + ((f / 4722366482869645213696u128) % 256u128) * 4722366482869645213696u128 + ((f / 1208925819614629174706176u128) % 256u128) * 1208925819614629174706176u128 + ((f / 309485009821345068724781056u128) % 256u128) * 309485009821345068724781056u128 + ((f / 79228162514264337593543950336u128) % 256u128) * 79228162514264337593543950336u128) as u128;
            &&& g == f
            &&& (f / 1u128) % 8192u128 == t0
            &&& (f / 8192u128) % 8192u128 == t1
            &&& (f / 67108864u128) % 8192u128 == t2
            &&& (f / 549755813888u128) % 8192u128 == t3
            &&& (f / 4503599627370496u128) % 8192u128 == t4
            &&& (f / 36893488147419103232u128) % 8192u128 == t5
            &&& (f / 302231454903657293676544u128) % 8192u128 == t6
            &&& (f / 2475880078570760549798248448u128) % 8192u128 == t7
        }),
{
}
} // verus!

verus! {

// ---- t0: 13 bits per coefficient, 2^12 - t0 (Algorithm 24) ----

/// Digits of t0 packing: 2^12 - c modulo 2^13.
pub open spec fn t0_digits(c: Seq<int>) -> Seq<int> {
    Seq::new(256, |i: int| (4096 - c[i]) % 8192)
}

/// BitPack(t0, 2^12 - 1, 2^12).
pub open spec fn polyt0_pack_spec(c: Seq<int>) -> Seq<u8> {
    pack_digits(t0_digits(c), 13, 8, 8192, 416)
}

/// BitUnpack for t0: coefficients 2^12 - d for 13-bit digits d.
pub open spec fn polyt0_unpack_spec(b: Seq<u8>) -> Seq<int> {
    Seq::new(256, |i: int| 4096 - unpack_digits(b, 13, 8, 8192, 256)[i])
}

/// Coefficients on which 2^12 - c stays within i32.
pub open spec fn t0_pack_ok(c: Seq<int>) -> bool {
    forall|i: int| 0 <= i < 256 ==> 4096 - i32::MAX <= #[trigger] c[i]
}

proof fn lemma_low13_i32(x: i32)
    by (bit_vector)
    ensures
        ((x as u32) & 0x1FFFu32) as i32 == x % 8192i32,
        ((x as u32) & 0x1FFFu32) < 8192u32,
{
}

/// Packs t0 (Algorithm 24): 13 bits per coefficient, 2^12 - c modulo 2^13.
#[verifier::spinoff_prover]
#[verifier::rlimit(60)]
pub fn polyt0_pack(buf: &mut [u8; POLYT0_PACKEDBYTES], p: &Poly)
    requires
        t0_pack_ok(p@),
    ensures
        final(buf)@ == polyt0_pack_spec(p@),
{
    let half: i32 = 4096;
    let ghost t = t0_digits(p@);
    let mut i: usize = 0;
    while i < N / 8
        invariant
            0 <= i <= 32,
            half == 4096,
            buf@.len() == 416,
            t == t0_digits(p@),
            t0_pack_ok(p@),
            forall|n: int| 0 <= n < 13 * i ==> #[trigger] buf@[n] == polyt0_pack_spec(p@)[n],
        decreases 32 - i,
    {
        assert(4096 - i32::MAX <= p@[8 * i as int + 0]);
        assert(4096 - i32::MAX <= p@[8 * i as int + 1]);
        assert(4096 - i32::MAX <= p@[8 * i as int + 2]);
        assert(4096 - i32::MAX <= p@[8 * i as int + 3]);
        assert(4096 - i32::MAX <= p@[8 * i as int + 4]);
        assert(4096 - i32::MAX <= p@[8 * i as int + 5]);
        assert(4096 - i32::MAX <= p@[8 * i as int + 6]);
        assert(4096 - i32::MAX <= p@[8 * i as int + 7]);
        let x0 = half - p.coeffs[8 * i + 0];
        let x1 = half - p.coeffs[8 * i + 1];
        let x2 = half - p.coeffs[8 * i + 2];
        let x3 = half - p.coeffs[8 * i + 3];
        let x4 = half - p.coeffs[8 * i + 4];
        let x5 = half - p.coeffs[8 * i + 5];
        let x6 = half - p.coeffs[8 * i + 6];
        let x7 = half - p.coeffs[8 * i + 7];
        proof {
            lemma_low13_i32(x0);
            lemma_low13_i32(x1);
            lemma_low13_i32(x2);
            lemma_low13_i32(x3);
            lemma_low13_i32(x4);
            lemma_low13_i32(x5);
            lemma_low13_i32(x6);
            lemma_low13_i32(x7);
        }
        let t0 = x0 as u32 & 0x1FFF;
        let t1 = x1 as u32 & 0x1FFF;
        let t2 = x2 as u32 & 0x1FFF;
        let t3 = x3 as u32 & 0x1FFF;
        let t4 = x4 as u32 & 0x1FFF;
        let t5 = x5 as u32 & 0x1FFF;
        let t6 = x6 as u32 & 0x1FFF;
        let t7 = x7 as u32 & 0x1FFF;
        let b = i * 13;
        buf[b] = t0 as u8;
        buf[b + 1] = (t0 >> 8 | t1 << 5) as u8;
        buf[b + 2] = (t1 >> 3) as u8;
        buf[b + 3] = (t1 >> 11 | t2 << 2) as u8;
        buf[b + 4] = (t2 >> 6 | t3 << 7) as u8;
        buf[b + 5] = (t3 >> 1) as u8;
        buf[b + 6] = (t3 >> 9 | t4 << 4) as u8;
        buf[b + 7] = (t4 >> 4) as u8;
        buf[b + 8] = (t4 >> 12 | t5 << 1) as u8;
        buf[b + 9] = (t5 >> 7 | t6 << 6) as u8;
        buf[b + 10] = (t6 >> 2) as u8;
        buf[b + 11] = (t6 >> 10 | t7 << 3) as u8;
        buf[b + 12] = (t7 >> 5) as u8;
        proof {
            lemma_t0_pack_group(t0, t1, t2, t3, t4, t5, t6, t7);
            reveal_with_fuel(digits_value, 9);
            reveal_with_fuel(pow_int, 13);
            let gi = 8 * i as int;
            let f = digits_value(t, gi, 8, 8192);
            assert(f == t0 + 8192 * (t1 + 8192 * (t2 + 8192 * (t3 + 8192 * (t4 + 8192 * (t5 + 8192 * (t6 + 8192 * (t7 as int))))))));
            assert forall|n: int| 13 * i <= n < 13 * i + 13 implies #[trigger] buf@[n]
                == polyt0_pack_spec(p@)[n] by {
                assert(n / 13 == i);
                assert((n / 13) * 8 == gi);
            }
        }
        i += 1;
    }
    assert(buf@ =~= polyt0_pack_spec(p@));
}

/// Unpacks t0 (Algorithm 25): coefficients in (-2^12, 2^12].
#[verifier::spinoff_prover]
#[verifier::rlimit(100)]
pub fn polyt0_unpack(buf: &[u8; POLYT0_PACKEDBYTES]) -> (p: Poly)
    ensures
        p@ == polyt0_unpack_spec(buf@),
        forall|i: int| 0 <= i < 256 ==> -4096 < #[trigger] p@[i] <= 4096,
{
    let half: i32 = 4096;
    let mask: i32 = 8191;
    let mut p = Poly::zero();
    let mut i: usize = 0;
    while i < N / 8
        invariant
            0 <= i <= 32,
            half == 4096,
            mask == 8191,
            p.coeffs@.len() == 256,
            buf@.len() == 416,
            forall|n: int| 0 <= n < 8 * i ==> #[trigger] p.coeffs@[n] as int
                == polyt0_unpack_spec(buf@)[n],
            forall|n: int| 0 <= n < 8 * i ==> -4096 < #[trigger] p.coeffs@[n] <= 4096,
        decreases 32 - i,
    {
        let b = i * 13;
        let b0 = buf[b + 0] as i32;
        let b1 = buf[b + 1] as i32;
        let b2 = buf[b + 2] as i32;
        let b3 = buf[b + 3] as i32;
        let b4 = buf[b + 4] as i32;
        let b5 = buf[b + 5] as i32;
        let b6 = buf[b + 6] as i32;
        let b7 = buf[b + 7] as i32;
        let b8 = buf[b + 8] as i32;
        let b9 = buf[b + 9] as i32;
        let b10 = buf[b + 10] as i32;
        let b11 = buf[b + 11] as i32;
        let b12 = buf[b + 12] as i32;
        proof {
            lemma_t0_unpack_group(b0, b1, b2, b3, b4, b5, b6, b7, b8, b9, b10, b11, b12);
        }
        p.coeffs[8 * i + 0] = half - ((b0 | (b1 << 8)) & mask);
        p.coeffs[8 * i + 1] = half - (((b1 >> 5) | (b2 << 3) | (b3 << 11)) & mask);
        p.coeffs[8 * i + 2] = half - (((b3 >> 2) | (b4 << 6)) & mask);
        p.coeffs[8 * i + 3] = half - (((b4 >> 7) | (b5 << 1) | (b6 << 9)) & mask);
        p.coeffs[8 * i + 4] = half - (((b6 >> 4) | (b7 << 4) | (b8 << 12)) & mask);
        p.coeffs[8 * i + 5] = half - (((b8 >> 1) | (b9 << 7)) & mask);
        p.coeffs[8 * i + 6] = half - (((b9 >> 6) | (b10 << 2) | (b11 << 10)) & mask);
        p.coeffs[8 * i + 7] = half - (((b11 >> 3) | (b12 << 5)) & mask);
        proof {
            reveal_with_fuel(bytes_value, 14);
            reveal_with_fuel(pow_int, 9);
            let g = bytes_value(buf@, b as int, 13);
            assert(g == buf@[b as int] + 256 * (buf@[b + 1] + 256 * (buf@[b + 2] + 256 * (buf@[b + 3] + 256 * (buf@[b + 4] + 256 * (buf@[b + 5] + 256 * (buf@[b + 6] + 256 * (buf@[b + 7] + 256 * (buf@[b + 8] + 256 * (buf@[b + 9] + 256 * (buf@[b + 10] + 256 * (buf@[b + 11] + 256 * (buf@[b + 12] as int)))))))))))));
            assert(pow_int(8192, 0) == 1 && pow_int(8192, 1) == 8192 && pow_int(8192, 2) == 67108864 && pow_int(8192, 3) == 549755813888 && pow_int(8192, 4) == 4503599627370496 && pow_int(8192, 5) == 36893488147419103232 && pow_int(8192, 6) == 302231454903657293676544 && pow_int(8192, 7) == 2475880078570760549798248448);
            assert forall|n: int| 8 * i <= n < 8 * i + 8 implies #[trigger] p.coeffs@[n] as int
                == polyt0_unpack_spec(buf@)[n] by {
                assert(n / 8 == i);
                assert((n / 8) * 13 == b);
                assert(n % 8 == n - 8 * i);
            }
        }
        i += 1;
    }
    assert(p@ =~= polyt0_unpack_spec(buf@));
    p
}

proof fn lemma_pow_values()
    ensures
        pow_int(256, 0) == 1,
        pow_int(256, 1) == 256,
        pow_int(256, 2) == 65536,
        pow_int(256, 3) == 16777216,
        pow_int(256, 4) == 4294967296,
        pow_int(256, 5) == 1099511627776,
        pow_int(256, 6) == 281474976710656,
        pow_int(256, 7) == 72057594037927936,
        pow_int(256, 8) == 18446744073709551616,
        pow_int(256, 9) == 4722366482869645213696,
        pow_int(256, 10) == 1208925819614629174706176,
        pow_int(256, 11) == 309485009821345068724781056,
        pow_int(256, 12) == 79228162514264337593543950336,
        pow_int(8192, 0) == 1,
        pow_int(8192, 1) == 8192,
        pow_int(8192, 2) == 67108864,
        pow_int(8192, 3) == 549755813888,
        pow_int(8192, 4) == 4503599627370496,
        pow_int(8192, 5) == 36893488147419103232,
        pow_int(8192, 6) == 302231454903657293676544,
        pow_int(8192, 7) == 2475880078570760549798248448,
{
    reveal_with_fuel(pow_int, 14);
}

proof fn lemma_bytes_value_13(b: Seq<u8>, start: int)
    ensures
        bytes_value(b, start, 13) == 1 * (b[start + 0] as int) + 256 * (b[start + 1] as int) + 65536 * (b[start + 2] as int) + 16777216 * (b[start + 3] as int) + 4294967296 * (b[start + 4] as int) + 1099511627776 * (b[start + 5] as int) + 281474976710656 * (b[start + 6] as int) + 72057594037927936 * (b[start + 7] as int) + 18446744073709551616 * (b[start + 8] as int) + 4722366482869645213696 * (b[start + 9] as int) + 1208925819614629174706176 * (b[start + 10] as int) + 309485009821345068724781056 * (b[start + 11] as int) + 79228162514264337593543950336 * (b[start + 12] as int),
{
    reveal_with_fuel(bytes_value, 14);
}

proof fn lemma_digits_value_8(t: Seq<int>, start: int)
    ensures
        digits_value(t, start, 8, 8192) == 1 * t[start + 0] + 8192 * t[start + 1] + 67108864 * t[start + 2] + 549755813888 * t[start + 3] + 4503599627370496 * t[start + 4] + 36893488147419103232 * t[start + 5] + 302231454903657293676544 * t[start + 6] + 2475880078570760549798248448 * t[start + 7],
{
    reveal_with_fuel(digits_value, 9);
}

#[verifier::spinoff_prover]
#[verifier::rlimit(100)]
proof fn lemma_t0_roundtrip_at(c: Seq<int>, i: int)
    requires
        c.len() == 256,
        forall|i: int| 0 <= i < 256 ==> -4096 < #[trigger] c[i] <= 4096,
        0 <= i < 256,
    ensures
        polyt0_unpack_spec(polyt0_pack_spec(c))[i] == c[i],
{
    let b = polyt0_pack_spec(c);
    let t = t0_digits(c);
    let g = i / 8;
    let s = 8 * g;
    assert(0 <= g < 32);
    lemma_pow_values();
    vstd::arithmetic::div_mod::lemma_small_mod((4096 - c[s + 0]) as nat, 8192);
    let t0 = (4096 - c[s + 0]) as u128;
    vstd::arithmetic::div_mod::lemma_small_mod((4096 - c[s + 1]) as nat, 8192);
    let t1 = (4096 - c[s + 1]) as u128;
    vstd::arithmetic::div_mod::lemma_small_mod((4096 - c[s + 2]) as nat, 8192);
    let t2 = (4096 - c[s + 2]) as u128;
    vstd::arithmetic::div_mod::lemma_small_mod((4096 - c[s + 3]) as nat, 8192);
    let t3 = (4096 - c[s + 3]) as u128;
    vstd::arithmetic::div_mod::lemma_small_mod((4096 - c[s + 4]) as nat, 8192);
    let t4 = (4096 - c[s + 4]) as u128;
    vstd::arithmetic::div_mod::lemma_small_mod((4096 - c[s + 5]) as nat, 8192);
    let t5 = (4096 - c[s + 5]) as u128;
    vstd::arithmetic::div_mod::lemma_small_mod((4096 - c[s + 6]) as nat, 8192);
    let t6 = (4096 - c[s + 6]) as u128;
    vstd::arithmetic::div_mod::lemma_small_mod((4096 - c[s + 7]) as nat, 8192);
    let t7 = (4096 - c[s + 7]) as u128;
    lemma_t0_roundtrip_group(t0, t1, t2, t3, t4, t5, t6, t7);
    lemma_digits_value_8(t, s);
    let f = digits_value(t, s, 8, 8192);
    assert(f == 1 * (t0 as int) + 8192 * (t1 as int) + 67108864 * (t2 as int) + 549755813888 * (t3 as int) + 4503599627370496 * (t4 as int) + 36893488147419103232 * (t5 as int) + 302231454903657293676544 * (t6 as int) + 2475880078570760549798248448 * (t7 as int));
    assert(b[13 * g + 0] as int == (f / 1) % 256) by { assert((13 * g + 0) / 13 == g && (13 * g + 0) % 13 == 0); }
    assert(b[13 * g + 1] as int == (f / 256) % 256) by { assert((13 * g + 1) / 13 == g && (13 * g + 1) % 13 == 1); }
    assert(b[13 * g + 2] as int == (f / 65536) % 256) by { assert((13 * g + 2) / 13 == g && (13 * g + 2) % 13 == 2); }
    assert(b[13 * g + 3] as int == (f / 16777216) % 256) by { assert((13 * g + 3) / 13 == g && (13 * g + 3) % 13 == 3); }
    assert(b[13 * g + 4] as int == (f / 4294967296) % 256) by { assert((13 * g + 4) / 13 == g && (13 * g + 4) % 13 == 4); }
    assert(b[13 * g + 5] as int == (f / 1099511627776) % 256) by { assert((13 * g + 5) / 13 == g && (13 * g + 5) % 13 == 5); }
    assert(b[13 * g + 6] as int == (f / 281474976710656) % 256) by { assert((13 * g + 6) / 13 == g && (13 * g + 6) % 13 == 6); }
    assert(b[13 * g + 7] as int == (f / 72057594037927936) % 256) by { assert((13 * g + 7) / 13 == g && (13 * g + 7) % 13 == 7); }
    assert(b[13 * g + 8] as int == (f / 18446744073709551616) % 256) by { assert((13 * g + 8) / 13 == g && (13 * g + 8) % 13 == 8); }
    assert(b[13 * g + 9] as int == (f / 4722366482869645213696) % 256) by { assert((13 * g + 9) / 13 == g && (13 * g + 9) % 13 == 9); }
    assert(b[13 * g + 10] as int == (f / 1208925819614629174706176) % 256) by { assert((13 * g + 10) / 13 == g && (13 * g + 10) % 13 == 10); }
    assert(b[13 * g + 11] as int == (f / 309485009821345068724781056) % 256) by { assert((13 * g + 11) / 13 == g && (13 * g + 11) % 13 == 11); }
    assert(b[13 * g + 12] as int == (f / 79228162514264337593543950336) % 256) by { assert((13 * g + 12) / 13 == g && (13 * g + 12) % 13 == 12); }
    lemma_bytes_value_13(b, 13 * g);
    assert(bytes_value(b, 13 * g, 13) == f);
    assert(i % 8 == i - s);
    assert((i / 8) * 13 == 13 * g);
}

/// Unpacking a packed t0 polynomial gives back its coefficients, when they lie in
/// (-2^12, 2^12].
pub proof fn lemma_t0_roundtrip(c: Seq<int>)
    requires
        c.len() == 256,
        forall|i: int| 0 <= i < 256 ==> -4096 < #[trigger] c[i] <= 4096,
    ensures
        polyt0_unpack_spec(polyt0_pack_spec(c)) == c,
{
    let b = polyt0_pack_spec(c);
    assert forall|i: int| 0 <= i < 256 implies #[trigger] polyt0_unpack_spec(b)[i] == c[i] by {
        lemma_t0_roundtrip_at(c, i);
    }
    assert(polyt0_unpack_spec(b) =~= c);
}

} // verus!

verus! {

// ---- w1: 4 bits per coefficient (Algorithm 28) ----

/// Digits of w1 packing: the coefficients modulo 16.
pub open spec fn w1_digits(c: Seq<int>) -> Seq<int> {
    Seq::new(256, |i: int| c[i] % 16)
}

/// SimpleBitPack(w1, 15).
pub open spec fn polyw1_pack_spec(c: Seq<int>) -> Seq<u8> {
    pack_digits(w1_digits(c), 1, 2, 16, 128)
}

proof fn lemma_w1_pack_byte(x: i32, y: i32)
    by (bit_vector)
    ensures
        (((x & 15i32) | ((y & 15i32) << 4i32)) as u8) as int == ((x % 16i32) as int + 16 * ((y % 16i32) as int)) % 256,
{
}

/// Packs w1 (Algorithm 28): 4 bits per coefficient, taken modulo 16.
pub fn polyw1_pack(buf: &mut [u8; POLYW1_PACKEDBYTES], p: &Poly)
    ensures
        final(buf)@ == polyw1_pack_spec(p@),
{
    let mut i: usize = 0;
    while i < N / 2
        invariant
            0 <= i <= 128,
            buf@.len() == 128,
            forall|n: int| 0 <= n < i ==> #[trigger] buf@[n] == polyw1_pack_spec(p@)[n],
        decreases 128 - i,
    {
        buf[i] = ((p.coeffs[2 * i] & 0x0F) | ((p.coeffs[2 * i + 1] & 0x0F) << 4)) as u8;
        proof {
            lemma_w1_pack_byte(p.coeffs@[2 * i as int], p.coeffs@[2 * i as int + 1]);
            reveal_with_fuel(digits_value, 3);
            reveal_with_fuel(pow_int, 2);
            let ii = i as int;
            assert(ii / 1 == ii && ii % 1 == 0);
            let f = digits_value(w1_digits(p@), 2 * ii, 2, 16);
            assert(f == p@[2 * ii] % 16 + 16 * (p@[2 * ii + 1] % 16));
            assert(0 <= f < 256);
            assert(buf@[ii] == polyw1_pack_spec(p@)[ii]);
        }
        i += 1;
    }
    assert(buf@ =~= polyw1_pack_spec(p@));
}

// ---- s1, s2: 4 bits per coefficient, eta - s (Algorithm 24, eta = 4) ----

/// The byte eta - c, wrapped to 8 bits.
pub open spec fn eta_byte(c: int) -> u8 {
    ((4 - c) % 256) as u8
}

/// Bytes written by eta packing for any coefficients: byte n combines the
/// 8-bit values u = eta - c of coefficients 2n and 2n + 1 as two 4-bit fields
/// (the second shifted by four, its high bits dropped).
pub open spec fn polyeta_pack_raw(c: Seq<int>) -> Seq<u8> {
    Seq::new(128, |n: int| eta_byte(c[2 * n]) | (eta_byte(c[2 * n + 1]) << 4u8))
}

/// Digits of eta packing: eta - c.
pub open spec fn eta_digits(c: Seq<int>) -> Seq<int> {
    Seq::new(256, |i: int| 4 - c[i])
}

/// BitPack(s, eta, eta).
pub open spec fn polyeta_pack_spec(c: Seq<int>) -> Seq<u8> {
    pack_digits(eta_digits(c), 1, 2, 16, 128)
}

/// BitUnpack(b, eta, eta): coefficients eta - d for 4-bit digits d.
pub open spec fn polyeta_unpack_spec(b: Seq<u8>) -> Seq<int> {
    Seq::new(256, |i: int| 4 - unpack_digits(b, 1, 2, 16, 256)[i])
}

/// Coefficients on which eta - c stays within i32.
pub open spec fn eta_pack_ok(c: Seq<int>) -> bool {
    forall|i: int| 0 <= i < 256 ==> 4 - i32::MAX <= #[trigger] c[i]
}

/// Coefficients in [-11, 4], whose digits eta - c fit in 4 bits.
pub open spec fn eta_digits_fit(c: Seq<int>) -> bool {
    forall|i: int| 0 <= i < 256 ==> -11 <= #[trigger] c[i] <= 4
}

proof fn lemma_eta_cast(x: i32)
    by (bit_vector)
    ensures
        (x as u8) == ((x % 256i32) as u8),
{
}

proof fn lemma_eta_pair(t0: u8, t1: u8)
    by (bit_vector)
    requires
        t0 < 16u8,
        t1 < 16u8,
    ensures
        ({
            let f = ((t0 as u32) + (t1 as u32) * 16u32) as u32;
            &&& f < 256u32
            &&& (t0 | (t1 << 4u8)) == f as u8
        }),
{
}

/// Packs an eta-bounded polynomial (Algorithm 24 with eta = 4): the 4-bit
/// fields eta - c, two coefficients per byte.
#[verifier::spinoff_prover]
#[verifier::rlimit(60)]
pub fn polyeta_pack(buf: &mut [u8; POLYETA_PACKEDBYTES], p: &Poly)
    requires
        eta_pack_ok(p@),
    ensures
        final(buf)@ == polyeta_pack_raw(p@),
        eta_digits_fit(p@) ==> final(buf)@ == polyeta_pack_spec(p@),
{
    let mut i: usize = 0;
    while i < N / 2
        invariant
            0 <= i <= 128,
            buf@.len() == 128,
            eta_pack_ok(p@),
            forall|n: int| 0 <= n < i ==> #[trigger] buf@[n] == polyeta_pack_raw(p@)[n],
            eta_digits_fit(p@) ==> forall|n: int| 0 <= n < i ==> #[trigger] buf@[n]
                == polyeta_pack_spec(p@)[n],
        decreases 128 - i,
    {
        let ghost gi = 2 * i as int;
        assert(4 - i32::MAX <= p@[gi] && 4 - i32::MAX <= p@[gi + 1]);
        let x0 = ETA - p.coeffs[2 * i];
        let x1 = ETA - p.coeffs[2 * i + 1];
        proof {
            lemma_eta_cast(x0);
            lemma_eta_cast(x1);
        }
        let t0 = x0 as u8;
        let t1 = x1 as u8;
        buf[i] = t0 | (t1 << 4);
        proof {
            assert(t0 == eta_byte(p@[gi]) && t1 == eta_byte(p@[gi + 1]));
            assert(buf@[i as int] == polyeta_pack_raw(p@)[i as int]);
            if eta_digits_fit(p@) {
                assert(-11 <= p@[gi] <= 4 && -11 <= p@[gi + 1] <= 4);
                lemma_eta_pair(t0, t1);
                reveal_with_fuel(digits_value, 3);
                reveal_with_fuel(pow_int, 1);
                let ii = i as int;
                assert(ii / 1 == ii && ii % 1 == 0);
                let f = digits_value(eta_digits(p@), gi, 2, 16);
                assert(f == t0 + 16 * (t1 as int));
                assert(0 <= f < 256);
                assert(buf@[ii] == polyeta_pack_spec(p@)[ii]);
            }
        }
        i += 1;
    }
    assert(buf@ =~= polyeta_pack_raw(p@));
    assert(eta_digits_fit(p@) ==> buf@ =~= polyeta_pack_spec(p@));
}

} // verus!

verus! {

proof fn lemma_eta_unpack_byte(b0: i32)
    by (bit_vector)
    requires
        0i32 <= b0 < 256i32,
    ensures
        0i32 <= (b0 & 15i32) < 16i32,
        0i32 <= (b0 >> 4i32) < 16i32,
        (b0 & 15i32) + 16i32 * (b0 >> 4i32) == b0,
{
}

/// Unpacks an eta-bounded polynomial (Algorithm 25 with eta = 4): coefficients in [-11, 4].
#[verifier::spinoff_prover]
#[verifier::rlimit(60)]
pub fn polyeta_unpack(buf: &[u8; POLYETA_PACKEDBYTES]) -> (p: Poly)
    ensures
        p@ == polyeta_unpack_spec(buf@),
        forall|i: int| 0 <= i < 256 ==> -11 <= #[trigger] p@[i] <= 4,
{
    let mut p = Poly::zero();
    let mut i: usize = 0;
    while i < N / 2
        invariant
            0 <= i <= 128,
            p.coeffs@.len() == 256,
            buf@.len() == 128,
            forall|n: int| 0 <= n < 2 * i ==> #[trigger] p.coeffs@[n] as int
                == polyeta_unpack_spec(buf@)[n],
            forall|n: int| 0 <= n < 2 * i ==> -11 <= #[trigger] p.coeffs@[n] <= 4,
        decreases 128 - i,
    {
        let b0 = buf[i] as i32;
        proof {
            lemma_eta_unpack_byte(b0);
        }
        p.coeffs[2 * i] = ETA - (b0 & 0x0F);
        p.coeffs[2 * i + 1] = ETA - (b0 >> 4);
        proof {
            reveal_with_fuel(bytes_value, 2);
            reveal_with_fuel(pow_int, 2);
            let ii = i as int;
            assert(bytes_value(buf@, ii, 1) == b0);
            assert(pow_int(16, 0) == 1 && pow_int(16, 1) == 16);
            assert((2 * ii) / 2 == ii && (2 * ii) % 2 == 0);
            assert((2 * ii + 1) / 2 == ii && (2 * ii + 1) % 2 == 1);
            assert(p.coeffs@[2 * ii] as int == polyeta_unpack_spec(buf@)[2 * ii]);
            assert(p.coeffs@[2 * ii + 1] as int == polyeta_unpack_spec(buf@)[2 * ii + 1]);
        }
        i += 1;
    }
    assert(p@ =~= polyeta_unpack_spec(buf@));
    p
}

proof fn lemma_eta_roundtrip_at(c: Seq<int>, i: int)
    requires
        c.len() == 256,
        eta_digits_fit(c),
        0 <= i < 256,
    ensures
        polyeta_unpack_spec(polyeta_pack_spec(c))[i] == c[i],
{
    let b = polyeta_pack_spec(c);
    let t = eta_digits(c);
    let g = i / 2;
    let s = 2 * g;
    reveal_with_fuel(digits_value, 3);
    reveal_with_fuel(bytes_value, 2);
    reveal_with_fuel(pow_int, 2);
    assert(-11 <= c[s] <= 4 && -11 <= c[s + 1] <= 4);
    let lo = 4 - c[s];
    let hi = 4 - c[s + 1];
    let f = digits_value(t, s, 2, 16);
    assert(f == lo + 16 * hi);
    assert(0 <= f < 256);
    assert(g / 1 == g && g % 1 == 0);
    assert(b[g] as int == f);
    assert(bytes_value(b, g, 1) == f);
    assert((i / 2) * 1 == g);
    assert(pow_int(16, 0) == 1 && pow_int(16, 1) == 16);
    vstd::arithmetic::div_mod::lemma_fundamental_div_mod_converse(f, 16, hi, lo);
    vstd::arithmetic::div_mod::lemma_small_mod(hi as nat, 16);
    assert(f / 1 == f);
    assert(i % 2 == i - s);
    if i % 2 == 0 {
        assert(polyeta_unpack_spec(b)[i] == 4 - (f / 1) % 16);
    } else {
        assert(polyeta_unpack_spec(b)[i] == 4 - (f / 16) % 16);
    }
}

/// Unpacking a packed eta-bounded polynomial gives back its coefficients, when they
/// lie in [-11, 4] (so in particular for [-eta, eta]).
pub proof fn lemma_eta_roundtrip(c: Seq<int>)
    requires
        c.len() == 256,
        eta_digits_fit(c),
    ensures
        polyeta_unpack_spec(polyeta_pack_spec(c)) == c,
{
    let b = polyeta_pack_spec(c);
    assert forall|i: int| 0 <= i < 256 implies #[trigger] polyeta_unpack_spec(b)[i] == c[i] by {
        lemma_eta_roundtrip_at(c, i);
    }
    assert(polyeta_unpack_spec(b) =~= c);
}

} // verus!
