//! Rejection sampling of polynomials from SHAKE output (FIPS 204, Section 7.3).

use vstd::prelude::*;
use crate::constants::{N, Q, SEEDBYTES, TAU};
use crate::polynomial::{q, Poly, shake128, shake256, shake256_2, shake128_output, shake256_output};
use crate::packing::{polyz_unpack, polyz_unpack_spec};
use crate::mldsa_spec::expand_mask_spec;

verus! {

/// Number of SHAKE128 bytes squeezed for one uniform polynomial (8 blocks).
pub const REJ_NTT_BYTES: usize = 1344;
/// Number of SHAKE256 bytes squeezed for one eta-bounded polynomial.
pub const REJ_BOUNDED_BYTES: usize = 544;
/// Number of SHAKE256 bytes squeezed for one challenge polynomial (2 blocks).
pub const SAMPLE_IN_BALL_BYTES: usize = 272;

/// The first 256 values of `s`, padded with zeros when `s` is shorter.
pub open spec fn padded(s: Seq<int>) -> Seq<int> {
    Seq::new(256, |i: int| if i < s.len() { s[i] } else { 0 })
}

/// CoeffFromThreeBytes (Algorithm 14) before the range test.
pub open spec fn three_bytes_value(b0: u8, b1: u8, b2: u8) -> int {
    (b2 as int % 128) * 65536 + (b1 as int) * 256 + (b0 as int)
}

/// The values below q among the first t byte triples of `b`, in order.
pub open spec fn accepted_triples(b: Seq<u8>, t: int) -> Seq<int>
    decreases t,
{
    if t <= 0 {
        Seq::empty()
    } else {
        let prev = accepted_triples(b, t - 1);
        let v = three_bytes_value(b[3 * t - 3], b[3 * t - 2], b[3 * t - 1]);
        if v < q() { prev.push(v) } else { prev }
    }
}

/// RejNTTPoly (Algorithm 30) on the seed rho || col || row.
pub open spec fn rej_ntt_spec(rho: Seq<u8>, col: u8, row: u8) -> Seq<int> {
    padded(accepted_triples(shake128_output(rho + seq![col, row], 1344), 448))
}

proof fn lemma_accepted_triples_prefix(b: Seq<u8>, t: int, t2: int)
    requires
        0 <= t <= t2,
    ensures
        accepted_triples(b, t).len() <= accepted_triples(b, t2).len(),
        accepted_triples(b, t2).len() <= t2,
        forall|i: int| 0 <= i < accepted_triples(b, t).len() ==>
            #[trigger] accepted_triples(b, t)[i] == accepted_triples(b, t2)[i],
    decreases t2,
{
    if t2 > 0 {
        if t < t2 {
            lemma_accepted_triples_prefix(b, t, t2 - 1);
        } else {
            lemma_accepted_triples_prefix(b, 0, t2 - 1);
        }
    }
}

proof fn lemma_three_bytes(b0: u8, b1: u8, b2: u8)
    by (bit_vector)
    ensures
        ((((b2 & 0x7Fu8) as i32) << 16i32) | ((b1 as i32) << 8i32) | (b0 as i32))
            == ((b2 & 0x7Fu8) as i32) * 65536i32 + (b1 as i32) * 256i32 + (b0 as i32),
        (b2 & 0x7Fu8) == b2 % 128,
{
}

/// RejNTTPoly (Algorithm 30): a polynomial with coefficients uniform in [0, q),
/// sampled from SHAKE128(rho || col || row). The coefficients are the first 256
/// values below q read as 23-bit integers from the first 1344 output bytes.
pub fn rej_ntt_poly(rho: &[u8; SEEDBYTES], col: u8, row: u8) -> (p: Poly)
    ensures
        p@ == rej_ntt_spec(rho@, col, row),
{
    let mut seed: Vec<u8> = Vec::new();
    let mut k: usize = 0;
    while k < SEEDBYTES
        invariant
            0 <= k <= 32,
            seed@ == rho@.subrange(0, k as int),
        decreases 32 - k,
    {
        seed.push(rho[k]);
        k += 1;
    }
    seed.push(col);
    seed.push(row);
    assert(seed@ == rho@ + seq![col, row]);
    let mut buf: Vec<u8> = vec![0u8; REJ_NTT_BYTES];
    shake128(buf.as_mut_slice(), seed.as_slice());
    let ghost bytes = buf@;
    assert(bytes == shake128_output(rho@ + seq![col, row], 1344));

    let mut poly = Poly::zero();
    let mut ctr: usize = 0;
    let mut pos: usize = 0;
    while ctr < N && pos < REJ_NTT_BYTES
        invariant
            buf@ == bytes,
            bytes.len() == 1344,
            pos % 3 == 0,
            pos <= 1344,
            poly.coeffs@.len() == 256,
            ctr == accepted_triples(bytes, pos as int / 3).len(),
            ctr <= 256,
            forall|i: int| 0 <= i < ctr ==> #[trigger] poly.coeffs@[i] as int
                == accepted_triples(bytes, pos as int / 3)[i],
            forall|i: int| ctr <= i < 256 ==> #[trigger] poly.coeffs@[i] == 0,
        decreases 1344 - pos,
    {
        let b0 = buf[pos];
        let b1 = buf[pos + 1];
        let b2 = buf[pos + 2];
        proof {
            lemma_three_bytes(b0, b1, b2);
        }
        let b2p = (b2 & 0x7F) as i32;
        let z = (b2p << 16) | ((b1 as i32) << 8) | (b0 as i32);
        assert(z == three_bytes_value(b0, b1, b2));
        assert((pos as int + 3) / 3 == pos as int / 3 + 1);
        assert(bytes[3 * ((pos as int + 3) / 3) - 3] == b0);
        if z < Q {
            poly.coeffs[ctr] = z;
            ctr += 1;
        }
        pos += 3;
    }
    proof {
        lemma_accepted_triples_prefix(bytes, pos as int / 3, 448);
        assert(poly@ =~= padded(accepted_triples(bytes, 448)));
    }
    poly
}

} // verus!

verus! {

/// The t-th half-byte of `b` (low half first).
pub open spec fn nibble(b: Seq<u8>, t: int) -> int {
    if t % 2 == 0 { b[t / 2] as int % 16 } else { b[t / 2] as int / 16 }
}

/// CoeffFromHalfByte (Algorithm 15, eta = 4) applied to the first t half-bytes
/// of `b`: half-bytes below 9 give 4 - h, the others are rejected.
pub open spec fn accepted_nibbles(b: Seq<u8>, t: int) -> Seq<int>
    decreases t,
{
    if t <= 0 {
        Seq::empty()
    } else {
        let prev = accepted_nibbles(b, t - 1);
        let h = nibble(b, t - 1);
        if h < 9 { prev.push(4 - h) } else { prev }
    }
}

/// RejBoundedPoly (Algorithm 31) on a 66-byte seed.
pub open spec fn rej_bounded_spec(seed: Seq<u8>) -> Seq<int> {
    padded(accepted_nibbles(shake256_output(seed, 544), 1088))
}

proof fn lemma_accepted_nibbles_prefix(b: Seq<u8>, t: int, t2: int)
    requires
        0 <= t <= t2,
    ensures
        accepted_nibbles(b, t).len() <= accepted_nibbles(b, t2).len(),
        accepted_nibbles(b, t2).len() <= t2,
        forall|i: int| 0 <= i < accepted_nibbles(b, t).len() ==>
            #[trigger] accepted_nibbles(b, t)[i] == accepted_nibbles(b, t2)[i],
    decreases t2,
{
    if t2 > 0 {
        if t < t2 {
            lemma_accepted_nibbles_prefix(b, t, t2 - 1);
        } else {
            lemma_accepted_nibbles_prefix(b, 0, t2 - 1);
        }
    }
}

proof fn lemma_half_bytes(z: u8)
    by (bit_vector)
    ensures
        z & 15u8 == z % 16u8,
        z >> 4u8 == z / 16u8,
{
}

/// RejBoundedPoly (Algorithm 31): a polynomial with coefficients in [-4, 4]
/// sampled from SHAKE256(seed). The coefficients are the first 256 accepted
/// half-bytes among the first 544 output bytes.
pub fn rej_bounded_poly(seed66: &[u8; 66]) -> (p: Poly)
    ensures
        p@ == rej_bounded_spec(seed66@),
        forall|i: int| 0 <= i < 256 ==> -4 <= #[trigger] p@[i] <= 4,
{
    let mut seed: Vec<u8> = Vec::new();
    let mut k: usize = 0;
    while k < 66
        invariant
            0 <= k <= 66,
            seed@ == seed66@.subrange(0, k as int),
        decreases 66 - k,
    {
        seed.push(seed66[k]);
        k += 1;
    }
    assert(seed@ == seed66@);
    let mut buf: Vec<u8> = vec![0u8; REJ_BOUNDED_BYTES];
    shake256(buf.as_mut_slice(), seed.as_slice());
    let ghost bytes = buf@;

    let mut poly = Poly::zero();
    let mut ctr: usize = 0;
    let mut pos: usize = 0;
    while ctr < N && pos < REJ_BOUNDED_BYTES
        invariant
            buf@ == bytes,
            bytes.len() == 544,
            pos <= 544,
            poly.coeffs@.len() == 256,
            ctr == (if accepted_nibbles(bytes, 2 * pos as int).len() < 256 {
                accepted_nibbles(bytes, 2 * pos as int).len() as int
            } else {
                256
            }),
            forall|i: int| 0 <= i < ctr ==> #[trigger] poly.coeffs@[i] as int
                == accepted_nibbles(bytes, 2 * pos as int)[i],
            forall|i: int| 0 <= i < ctr ==> -4 <= #[trigger] poly.coeffs@[i] <= 4,
            forall|i: int| ctr <= i < 256 ==> #[trigger] poly.coeffs@[i] == 0,
        decreases 544 - pos,
    {
        let z = buf[pos];
        let z0 = (z & 0x0F) as i32;
        let z1 = (z >> 4) as i32;
        proof {
            lemma_half_bytes(z);
            lemma_accepted_nibbles_prefix(bytes, 2 * pos as int, 2 * pos as int + 2);
            assert(nibble(bytes, 2 * pos as int) == z0);
            assert(nibble(bytes, 2 * pos as int + 1) == z1);
            let a0 = accepted_nibbles(bytes, 2 * pos as int);
            let a1 = accepted_nibbles(bytes, 2 * pos as int + 1);
            let a2 = accepted_nibbles(bytes, 2 * pos as int + 2);
            assert(a1 == (if z0 < 9 { a0.push(4 - z0) } else { a0 }));
            assert(a2 == (if z1 < 9 { a1.push(4 - z1) } else { a1 }));
            assert(2 * (pos as int + 1) == 2 * pos as int + 2);
        }
        if z0 < 9 {
            poly.coeffs[ctr] = 4 - z0;
            ctr += 1;
        }
        if ctr < N && z1 < 9 {
            poly.coeffs[ctr] = 4 - z1;
            ctr += 1;
        }
        pos += 1;
    }
    proof {
        lemma_accepted_nibbles_prefix(bytes, 2 * pos as int, 1088);
        assert(poly@ =~= padded(accepted_nibbles(bytes, 1088)));
    }
    poly
}

} // verus!

verus! {

/// The little-endian word of the first i bytes of `b` (i <= 8).
pub open spec fn le_word(b: Seq<u8>, i: int) -> u64
    decreases i,
{
    if i <= 0 { 0 } else { le_word(b, i - 1) | ((b[i - 1] as u64) << (8 * (i - 1)) as u64) }
}

/// First position at or after `pos` (and before 272) holding a byte <= i; 272 if none.
pub open spec fn next_pos(b: Seq<u8>, pos: int, i: int) -> int
    decreases 272 - pos,
{
    if pos >= 272 || pos < 0 {
        272
    } else if b[pos] as int <= i {
        pos
    } else {
        next_pos(b, pos + 1, i)
    }
}

/// SampleInBall (Algorithm 29) on the squeezed bytes `b`: the state (coefficients,
/// read position, success) once the positions 207 .. i - 1 have been placed.
pub open spec fn ball_state(b: Seq<u8>, i: int) -> (Seq<int>, int, bool)
    decreases i - 207,
{
    if i <= 207 {
        (Seq::new(256, |k: int| 0int), 8, true)
    } else {
        let (p, pos, ok) = ball_state(b, i - 1);
        if !ok {
            (p, pos, ok)
        } else {
            let np = next_pos(b, pos, i - 1);
            if np >= 272 {
                (p, 272, false)
            } else {
                let j = b[np] as int;
                let s = ((le_word(b, 8) >> (i - 1 - 207) as u64) & 1u64) as int;
                (p.update(i - 1, p[j]).update(j, 1 - 2 * s), np + 1, true)
            }
        }
    }
}

/// SampleInBall (Algorithm 29) on c~.
pub open spec fn sample_in_ball_spec(c_tilde: Seq<u8>) -> Seq<int> {
    ball_state(shake256_output(c_tilde, 272), 256).0
}

proof fn lemma_shr_step(w: u64, k: u64)
    by (bit_vector)
    requires
        k < 63,
    ensures
        (w >> k) >> 1u64 == w >> (k + 1),
        w >> 0u64 == w,
        ((w >> k) & 1u64) <= 1,
{
}

proof fn lemma_next_pos(b: Seq<u8>, pos: int, i: int)
    requires
        0 <= pos <= 272,
    ensures
        pos <= next_pos(b, pos, i) <= 272,
        next_pos(b, pos, i) < 272 ==> b[next_pos(b, pos, i)] as int <= i,
    decreases 272 - pos,
{
    if pos < 272 && b[pos] as int > i {
        lemma_next_pos(b, pos + 1, i);
    }
}

proof fn lemma_ball_stuck(b: Seq<u8>, i: int, i2: int)
    requires
        207 <= i <= i2,
        !ball_state(b, i).2,
    ensures
        ball_state(b, i2) == ball_state(b, i),
    decreases i2 - i,
{
    if i2 > i {
        lemma_ball_stuck(b, i, i2 - 1);
    }
}

proof fn lemma_ball_range(b: Seq<u8>, i: int)
    requires
        207 <= i <= 256,
    ensures
        ball_state(b, i).0.len() == 256,
        8 <= ball_state(b, i).1 <= 272,
        forall|k: int| 0 <= k < 256 ==> -1 <= #[trigger] ball_state(b, i).0[k] <= 1,
    decreases i - 207,
{
    if i > 207 {
        lemma_ball_range(b, i - 1);
        let (p, pos, ok) = ball_state(b, i - 1);
        if ok {
            lemma_next_pos(b, pos, i - 1);
            let np = next_pos(b, pos, i - 1);
            if np < 272 {
                let s = ((le_word(b, 8) >> (i - 1 - 207) as u64) & 1u64);
                lemma_shr_step(le_word(b, 8), (i - 1 - 207) as u64);
            }
        }
    }
}

/// SampleInBall (Algorithm 29): a polynomial with coefficients in {-1, 0, 1}
/// derived from SHAKE256(c~). Sign bits come from the first 8 output bytes and
/// the positions from the following bytes of the first 272.
pub fn sample_in_ball(c_tilde: &[u8]) -> (p: Poly)
    ensures
        p@ == sample_in_ball_spec(c_tilde@),
        forall|k: int| 0 <= k < 256 ==> -1 <= #[trigger] p@[k] <= 1,
{
    let mut buf: Vec<u8> = vec![0u8; SAMPLE_IN_BALL_BYTES];
    shake256(buf.as_mut_slice(), c_tilde);
    let ghost bytes = buf@;
    assert(bytes == shake256_output(c_tilde@, 272));
    let mut poly = Poly::zero();

    let mut signs: u64 = 0;
    let mut k: usize = 0;
    while k < 8
        invariant
            0 <= k <= 8,
            buf@ == bytes,
            bytes.len() == 272,
            signs == le_word(bytes, k as int),
        decreases 8 - k,
    {
        signs = signs | ((buf[k] as u64) << (8 * k as u64));
        k += 1;
    }
    let ghost word = signs;
    proof {
        lemma_shr_step(word, 0);
        lemma_ball_range(bytes, 207);
        assert(poly@ =~= ball_state(bytes, 207).0);
    }
    let mut pos: usize = 8;
    let mut i: usize = N - TAU;
    while i < N
        invariant
            207 <= i <= 256,
            buf@ == bytes,
            bytes.len() == 272,
            word == le_word(bytes, 8),
            bytes == shake256_output(c_tilde@, 272),
            signs == word >> (i - 207) as u64,
            poly.coeffs@.len() == 256,
            ball_state(bytes, i as int).2,
            ball_state(bytes, i as int).1 == pos,
            ball_state(bytes, i as int).0 == poly@,
        decreases 256 - i,
    {
        proof {
            lemma_ball_range(bytes, i as int);
            lemma_next_pos(bytes, pos as int, i as int);
        }
        while pos < SAMPLE_IN_BALL_BYTES && (buf[pos] as usize) > i
            invariant
                8 <= pos <= 272,
                buf@ == bytes,
                bytes.len() == 272,
                next_pos(bytes, pos as int, i as int) == next_pos(bytes, ball_state(bytes, i as int).1, i as int),
            decreases 272 - pos,
        {
            pos += 1;
        }
        let ghost np = next_pos(bytes, ball_state(bytes, i as int).1, i as int);
        if pos >= SAMPLE_IN_BALL_BYTES {
            proof {
                assert(np == 272);
                assert(!ball_state(bytes, i as int + 1).2);
                assert(ball_state(bytes, i as int + 1).0 == poly@);
                lemma_ball_stuck(bytes, i as int + 1, 256);
                assert(poly@ =~= ball_state(bytes, 256).0);
                lemma_ball_range(bytes, 256);
            }
            return poly;
        }
        assert(np == pos);
        let j = buf[pos] as usize;
        pos += 1;
        proof {
            lemma_shr_step(word, (i - 207) as u64);
        }
        let s = 1 - 2 * ((signs & 1) as i32);
        let cj = poly.coeffs[j];
        poly.coeffs[i] = cj;
        poly.coeffs[j] = s;
        signs = signs >> 1;
        proof {
            let (p0, pos0, ok0) = ball_state(bytes, i as int);
            assert(ball_state(bytes, i as int + 1) == (p0.update(i as int, p0[j as int]).update(j as int, 1 - 2 * (((word >> (i - 207) as u64) & 1u64) as int)), np + 1, true));
            assert(poly@ =~= ball_state(bytes, i as int + 1).0);
        }
        i += 1;
    }
    proof {
        lemma_ball_range(bytes, 256);
    }
    poly
}

} // verus!

verus! {

/// Every value produced by RejNTTPoly lies in [0, q).
pub proof fn lemma_rej_ntt_reduced(rho: Seq<u8>, col: u8, row: u8)
    ensures
        forall|i: int| 0 <= i < 256 ==> 0 <= #[trigger] rej_ntt_spec(rho, col, row)[i] < q(),
{
    let b = shake128_output(rho + seq![col, row], 1344);
    lemma_accepted_triples_range(b, 448);
}

proof fn lemma_accepted_triples_range(b: Seq<u8>, t: int)
    ensures
        forall|i: int| 0 <= i < accepted_triples(b, t).len() ==> 0 <= #[trigger] accepted_triples(b, t)[i] < q(),
    decreases t,
{
    if t > 0 {
        lemma_accepted_triples_range(b, t - 1);
        let prev = accepted_triples(b, t - 1);
        let v = three_bytes_value(b[3 * t - 3], b[3 * t - 2], b[3 * t - 1]);
        assert(accepted_triples(b, t) == (if v < q() { prev.push(v) } else { prev }));
    }
}

} // verus!

verus! {

/// One polynomial of ExpandMask (Algorithm 34): BitUnpack(H(rho'' || nonce, 640))
/// with coefficients in (gamma1 - 2^20, gamma1], the nonce taken as two
/// little-endian bytes.
pub fn expand_mask_poly(rho_prime: &[u8; 64], nonce: u16) -> (p: Poly)
    ensures
        p@ == expand_mask_spec(rho_prime@, nonce as int),
        forall|i: int| 0 <= i < 256 ==> 524288 - 1048576 < #[trigger] p@[i] <= 524288,
{
    let n_lo = (nonce & 0xFF) as u8;
    let n_hi = (nonce >> 8) as u8;
    let nb: [u8; 2] = [n_lo, n_hi];
    proof {
        assert(n_lo == nonce % 256 && n_hi == nonce / 256) by (bit_vector)
            requires
                n_lo == (nonce & 0xFF) as u8,
                n_hi == (nonce >> 8) as u8;
        assert(nb@ =~= seq![(nonce as int % 256) as u8, (nonce as int / 256) as u8]);
    }
    let mut buf = [0u8; 640];
    shake256_2(&mut buf, rho_prime, &nb);
    polyz_unpack(&buf)
}

} // verus!

verus! {

/// Every value produced by RejBoundedPoly lies in [-4, 4].
pub proof fn lemma_rej_bounded_range(seed: Seq<u8>)
    ensures
        rej_bounded_spec(seed).len() == 256,
        forall|i: int| 0 <= i < 256 ==> -4 <= #[trigger] rej_bounded_spec(seed)[i] <= 4,
{
    lemma_accepted_nibbles_range(shake256_output(seed, 544), 1088);
}

proof fn lemma_accepted_nibbles_range(b: Seq<u8>, t: int)
    ensures
        forall|i: int| 0 <= i < accepted_nibbles(b, t).len() ==> -4 <= #[trigger] accepted_nibbles(b, t)[i] <= 4,
    decreases t,
{
    if t > 0 {
        lemma_accepted_nibbles_range(b, t - 1);
        let prev = accepted_nibbles(b, t - 1);
        let h = nibble(b, t - 1);
        assert(accepted_nibbles(b, t) == (if h < 9 { prev.push(4 - h) } else { prev }));
    }
}

} // verus!

verus! {

/// The number of nonzero coefficients among the first n.
pub open spec fn nonzero_count(p: Seq<int>, n: int) -> int
    decreases n,
{
    if n <= 0 { 0 } else { nonzero_count(p, n - 1) + if p[n - 1] != 0 { 1int } else { 0int } }
}

/// Updating one coefficient changes the count by whether it was and is nonzero.
proof fn lemma_nonzero_count_update(p: Seq<int>, x: int, v: int, n: int)
    requires
        0 <= x < p.len(),
        0 <= n <= p.len(),
    ensures
        nonzero_count(p.update(x, v), n) == nonzero_count(p, n)
            - (if x < n && p[x] != 0 { 1int } else { 0int }) + (if x < n && v != 0 { 1int } else { 0int }),
    decreases n,
{
    if n > 0 {
        lemma_nonzero_count_update(p, x, v, n - 1);
    }
}

/// After placing positions 207 .. i - 1, SampleInBall has at most i - 207
/// nonzero coefficients, and none at positions i and beyond.
#[verifier::spinoff_prover]
proof fn lemma_ball_weight(b: Seq<u8>, i: int)
    requires
        207 <= i <= 256,
    ensures
        nonzero_count(ball_state(b, i).0, 256) <= i - 207,
        forall|m: int| i <= m < 256 ==> #[trigger] ball_state(b, i).0[m] == 0,
    decreases i - 207,
{
    if i == 207 {
        let p = ball_state(b, i).0;
        assert forall|n: int| 0 <= n <= 256 implies #[trigger] nonzero_count(p, n) == 0 by {
            lemma_zero_count(p, n);
        }
    } else {
        lemma_ball_weight(b, i - 1);
        lemma_ball_range(b, i - 1);
        let (p, pos, ok) = ball_state(b, i - 1);
        if ok {
            lemma_next_pos(b, pos, i - 1);
            let np = next_pos(b, pos, i - 1);
            if np < 272 {
                let j = b[np] as int;
                let s = ((le_word(b, 8) >> (i - 1 - 207) as u64) & 1u64) as int;
                let p1 = p.update(i - 1, p[j]);
                assert(p[i - 1] == 0);
                lemma_nonzero_count_update(p, i - 1, p[j], 256);
                lemma_nonzero_count_update(p1, j, 1 - 2 * s, 256);
                if j == i - 1 {
                    assert(p1[j] == 0);
                }
            }
        }
    }
}

proof fn lemma_zero_count(p: Seq<int>, n: int)
    requires
        0 <= n <= 256,
        p == Seq::new(256, |k: int| 0int),
    ensures
        nonzero_count(p, n) == 0,
    decreases n,
{
    if n > 0 {
        lemma_zero_count(p, n - 1);
    }
}

/// SampleInBall gives a polynomial of 256 coefficients in {-1, 0, 1}, at most
/// tau = 49 of them nonzero.
pub proof fn lemma_sample_in_ball_weight(c_tilde: Seq<u8>)
    ensures
        sample_in_ball_spec(c_tilde).len() == 256,
        forall|k: int| 0 <= k < 256 ==> -1 <= #[trigger] sample_in_ball_spec(c_tilde)[k] <= 1,
        nonzero_count(sample_in_ball_spec(c_tilde), 256) <= 49,
{
    lemma_ball_range(shake256_output(c_tilde, 272), 256);
    lemma_ball_weight(shake256_output(c_tilde, 272), 256);
}

} // verus!
