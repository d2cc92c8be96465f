//! Arithmetic modulo q, rounding, NTT, sampling and packing of ring polynomials.

use vstd::prelude::*;
use sha3::{Shake128, Shake256};
use sha3::digest::{ExtendableOutput, Update, XofReader};
use crate::constants::{N, Q, D, GAMMA2, QINV};
use crate::ntt::{ints, ntt_spec, invntt_spec, ntt_input_ok, invntt_input_ok, all_reduced};

verus! {

// ---------------------------------------------------------------------------
// Modular arithmetic
// ---------------------------------------------------------------------------

/// The modulus as a mathematical integer.
pub open spec fn q() -> int {
    8380417
}

/// `x mod± m`: the representative of x modulo m in (-m/2, m/2] (m even).
pub open spec fn mod_pm(x: int, m: int) -> int {
    let t = x % m;
    if t > m / 2 { t - m } else { t }
}

/// The centred representative of a modulo q, in [-(q-1)/2, (q-1)/2].
pub open spec fn centered_spec(a: int) -> int {
    let r = a % q();
    if r > (q() - 1) / 2 { r - q() } else { r }
}

/// Power2Round: (r1, r0) with r+ = r1 * 2^13 + r0 and r0 = r+ mod± 2^13.
pub open spec fn power2round_spec(r: int) -> (int, int) {
    let rp = r % q();
    let r0 = mod_pm(rp, 8192);
    ((rp - r0) / 8192, r0)
}

/// Decompose: (r1, r0) with r+ = r1 * 2*gamma2 + r0 and r0 = r+ mod± 2*gamma2,
/// except that r+ - r0 = q - 1 yields (0, r0 - 1).
pub open spec fn decompose_spec(r: int) -> (int, int) {
    let rp = r % q();
    let r0 = mod_pm(rp, 523776);
    if rp - r0 == q() - 1 {
        (0, r0 - 1)
    } else {
        ((rp - r0) / 523776, r0)
    }
}

/// MakeHint: 1 when adding z to r changes the high bits of r.
pub open spec fn make_hint_spec(z: int, r: int) -> int {
    if decompose_spec(r).0 != decompose_spec((r + z) % q()).0 { 1 } else { 0 }
}

/// UseHint: the high bits of r, moved one step (mod 16) in the direction of
/// the low bits when the hint is 1.
pub open spec fn use_hint_spec(h: int, r: int) -> int {
    let (r1, r0) = decompose_spec(r);
    if h == 1 {
        if r0 > 0 { (r1 + 1) % 16 } else { (r1 - 1) % 16 }
    } else {
        r1
    }
}

/// Euclidean remainder of a 64-bit value modulo q.
pub fn reduce64(a: i64) -> (r: i32)
    ensures
        r == (a as int) % q(),
        0 <= r < Q,
{
    let r = a % (Q as i64);
    if r < 0 {
        (r + Q as i64) as i32
    } else {
        r as i32
    }
}

/// An exact multiple of 2^32 shifts right by 32 to its quotient.
proof fn lemma_shr32_exact(x: i64, m: i64)
    by (bit_vector)
    requires
        -2147483648i64 <= m <= 2147483647i64,
        x == m * 4294967296i64,
    ensures
        x >> 32i64 == m,
{
}

/// Montgomery reduction (FIPS 204, Algorithm 49): r = a * 2^{-32} mod q.
#[verifier::spinoff_prover]
#[verifier::rlimit(30)]
pub fn montgomery_reduce(a: i64) -> (r: i32)
    requires
        -2147483648 * q() <= a <= 2147483648 * q(),
    ensures
        ((r as int) * 4294967296 - (a as int)) % q() == 0,
        -q() <= r <= q(),
{
    // t = (a mod 2^32) * q^{-1} mod 2^32, as a signed 32-bit value
    let mut lo: i64 = a % 4294967296;
    if lo < 0 {
        lo = lo + 4294967296;
    }
    let t0: i64 = (lo * (QINV as i64)) % 4294967296;
    let t: i64 = if t0 >= 2147483648 { t0 - 4294967296 } else { t0 };
    let x: i64 = a - t * (Q as i64);
    proof {
        let aa = a as int;
        let big_a = aa / 4294967296;
        vstd::arithmetic::div_mod::lemma_fundamental_div_mod(aa, 4294967296);
        assert(lo as int == aa % 4294967296);
        let p = (lo as int) * 58728449;
        let b0 = p / 4294967296;
        vstd::arithmetic::div_mod::lemma_fundamental_div_mod(p, 4294967296);
        let b = if t0 >= 2147483648 { b0 + 1 } else { b0 };
        assert(t == p - 4294967296 * b);
        assert(58728449 * 8380417 == 1 + 4294967296 * 114592);
        let m = big_a - (lo as int) * 114592 + b * 8380417;
        assert(x == 4294967296 * m) by (nonlinear_arith)
            requires
                aa == 4294967296 * big_a + lo,
                t == p - 4294967296 * b,
                p == (lo as int) * 58728449,
                x == aa - t * 8380417,
                m == big_a - (lo as int) * 114592 + b * 8380417,
        ;
        assert(-2147483648 <= m <= 2147483647) by (nonlinear_arith)
            requires
                x == 4294967296 * m,
                x == aa - t * 8380417,
                -2147483648 <= t < 2147483648,
                -2147483648 * 8380417 <= aa <= 2147483648 * 8380417,
        ;
        lemma_shr32_exact(x, m as i64);
        vstd::arithmetic::div_mod::lemma_mod_multiples_basic(-(t as int), q());
    }
    let r = x >> 32;
    proof {
        assert((r as int) * 4294967296 - (a as int) == -(t as int) * q());
        assert(-q() <= r <= q()) by (nonlinear_arith)
            requires
                r * 4294967296 == x,
                x == a - (t as int) * 8380417,
                -2147483648 <= t <= 2147483647,
                -2147483648 * 8380417 <= a <= 2147483648 * 8380417,
        ;
    }
    r as i32
}

/// Reduces `a` into the canonical range [0, q).
pub fn freeze(a: i32) -> (r: i32)
    ensures
        r == (a as int) % q(),
        0 <= r < Q,
{
    let r = a % Q;
    if r < 0 {
        r + Q
    } else {
        r
    }
}

/// Centred reduction: maps a into (-q/2, q/2].
pub fn centered(a: i32) -> (r: i32)
    ensures
        r == centered_spec(a as int),
        -(Q - 1) / 2 <= r <= (Q - 1) / 2,
{
    let r = freeze(a);
    if r > (Q - 1) / 2 {
        r - Q
    } else {
        r
    }
}

/// Power2Round (FIPS 204, Algorithm 35).
pub fn power2round(r: i32) -> (res: (i32, i32))
    ensures
        res.0 == power2round_spec(r as int).0,
        res.1 == power2round_spec(r as int).1,
        -4096 < res.1 <= 4096,
        0 <= res.0 < 1024,
        res.0 * 8192 + res.1 == (r as int) % q(),
{
    let r_plus = freeze(r);
    let two_d: i32 = 8192;
    let half: i32 = 4096;
    let mut r0 = r_plus % two_d;
    if r0 > half {
        r0 -= two_d;
    }
    let diff = r_plus - r0;
    assert(diff % 8192 == 0);
    assert(diff >> 13 == diff / 8192) by (bit_vector)
        requires
            diff >= 0,
    ;
    let r1 = diff >> D;
    (r1, r0)
}

/// Decompose (FIPS 204, Algorithm 36).
pub fn decompose(r: i32) -> (res: (i32, i32))
    ensures
        res.0 == decompose_spec(r as int).0,
        res.1 == decompose_spec(r as int).1,
        0 <= res.0 < 16,
        -GAMMA2 <= res.1 <= GAMMA2,
{
    let r_plus = freeze(r);
    let alpha: i32 = 2 * GAMMA2;
    let mut r0 = r_plus % alpha;
    if r0 > GAMMA2 {
        r0 -= alpha;
    }
    if r_plus - r0 == Q - 1 {
        (0, r0 - 1)
    } else {
        ((r_plus - r0) / alpha, r0)
    }
}

/// MakeHint (FIPS 204, Algorithm 39).
pub fn make_hint_coeff(z: i32, r: i32) -> (h: i32)
    requires
        i32::MIN <= r + z <= i32::MAX,
    ensures
        h == make_hint_spec(z as int, r as int),
        h == 0 || h == 1,
{
    let r1 = decompose(r).0;
    let v1 = decompose(freeze(r + z)).0;
    if r1 != v1 {
        1
    } else {
        0
    }
}

/// UseHint (FIPS 204, Algorithm 40).
pub fn use_hint_coeff(h: i32, r: i32) -> (res: i32)
    ensures
        res == use_hint_spec(h as int, r as int),
        0 <= res < 16,
{
    let m: i32 = 16;
    let (r1, r0) = decompose(r);
    if h == 1 {
        if r0 > 0 {
            let t = r1 + 1;
            if t == m { 0 } else { t }
        } else {
            let t = r1 - 1;
            if t < 0 { t + m } else { t }
        }
    } else {
        r1
    }
}

} // verus!

verus! {

// ---------------------------------------------------------------------------
// Polynomials
// ---------------------------------------------------------------------------

/// A polynomial of Z_q[X]/(X^256 + 1), or its NTT image, by its 256 coefficients.
#[derive(Clone, Copy, Debug, PartialEq, Eq)]
pub struct Poly {
    pub coeffs: [i32; N],
}

impl View for Poly {
    type V = Seq<int>;

    open spec fn view(&self) -> Seq<int> {
        ints(self.coeffs@)
    }
}

/// Coefficient-wise product modulo q (multiplication in the NTT domain).
pub open spec fn pointwise_spec(a: Seq<int>, b: Seq<int>) -> Seq<int> {
    Seq::new(256, |i: int| (a[i] * b[i]) % q())
}

/// Coefficient-wise sum modulo q.
pub open spec fn add_spec(a: Seq<int>, b: Seq<int>) -> Seq<int> {
    Seq::new(256, |i: int| (a[i] + b[i]) % q())
}

/// Coefficient-wise difference modulo q.
pub open spec fn sub_spec(a: Seq<int>, b: Seq<int>) -> Seq<int> {
    Seq::new(256, |i: int| (a[i] - b[i]) % q())
}

/// Coefficient-wise reduction modulo q.
pub open spec fn reduce_spec(a: Seq<int>) -> Seq<int> {
    Seq::new(256, |i: int| a[i] % q())
}

/// Infinity norm (of the centred representatives) strictly below `bound`.
pub open spec fn norm_below(a: Seq<int>, bound: int) -> bool {
    forall|i: int| 0 <= i < 256 ==> #[trigger] abs_spec(centered_spec(a[i])) < bound
}

pub open spec fn abs_spec(x: int) -> int {
    if x < 0 { -x } else { x }
}

/// Sums of coefficients stay within i32.
pub open spec fn add_fits(a: Seq<int>, b: Seq<int>) -> bool {
    forall|i: int| 0 <= i < 256 ==> i32::MIN <= #[trigger] a[i] + b[i] <= i32::MAX
}

/// Differences of coefficients stay within i32.
pub open spec fn sub_fits(a: Seq<int>, b: Seq<int>) -> bool {
    forall|i: int| 0 <= i < 256 ==> i32::MIN <= #[trigger] a[i] - b[i] <= i32::MAX
}

/// Orders the compiler not to move memory accesses across this point.
#[verifier::external_body]
pub(crate) fn compiler_fence_seqcst() {
    core::sync::atomic::compiler_fence(core::sync::atomic::Ordering::SeqCst);
}

impl Default for Poly {
    fn default() -> (p: Self)
        ensures
            forall|i: int| 0 <= i < 256 ==> #[trigger] p@[i] == 0,
    {
        Self::zero()
    }
}

impl Poly {
    /// The zero polynomial.
    pub fn zero() -> (p: Self)
        ensures
            p@.len() == 256,
            forall|i: int| 0 <= i < 256 ==> #[trigger] p@[i] == 0,
            forall|i: int| 0 <= i < 256 ==> #[trigger] p.coeffs@[i] == 0,
    {
        Self { coeffs: [0i32; 256] }
    }

    /// Forward NTT in place (Algorithm 41).
    pub fn ntt(&mut self)
        requires
            ntt_input_ok(old(self).coeffs@),
        ensures
            final(self)@ == ntt_spec(old(self)@),
            all_reduced(final(self).coeffs@),
    {
        crate::ntt::ntt(&mut self.coeffs);
    }

    /// Inverse NTT in place (Algorithm 42).
    pub fn invntt(&mut self)
        requires
            invntt_input_ok(old(self).coeffs@),
        ensures
            final(self)@ == invntt_spec(old(self)@),
            all_reduced(final(self).coeffs@),
    {
        crate::ntt::invntt(&mut self.coeffs);
    }

    /// Pointwise multiplication in the NTT domain (Algorithm 45).
    pub fn pointwise_mul(&self, rhs: &Self) -> (r: Self)
        ensures
            r@ == pointwise_spec(self@, rhs@),
            all_reduced(r.coeffs@),
    {
        let mut r = Self::zero();
        let mut i: usize = 0;
        while i < N
            invariant
                0 <= i <= 256,
                r.coeffs@.len() == 256,
                forall|j: int| 0 <= j < i ==> #[trigger] r.coeffs@[j] as int
                    == (self.coeffs@[j] * rhs.coeffs@[j]) % q(),
                forall|j: int| 0 <= j < i ==> 0 <= #[trigger] r.coeffs@[j] < q(),
            decreases 256 - i,
        {
            let a = self.coeffs[i] as i64;
            let b = rhs.coeffs[i] as i64;
            proof {
                assert(-4611686018427387904 <= a * b <= 4611686018427387904) by (nonlinear_arith)
                    requires -2147483648 <= a <= 2147483647, -2147483648 <= b <= 2147483647;
            }
            r.coeffs[i] = reduce64(a * b);
            i += 1;
        }
        assert(r@ =~= pointwise_spec(self@, rhs@));
        r
    }

    /// Coefficient-wise sum modulo q.
    pub fn add(&self, rhs: &Self) -> (r: Self)
        requires
            add_fits(self@, rhs@),
        ensures
            r@ == add_spec(self@, rhs@),
            all_reduced(r.coeffs@),
    {
        let mut r = Self::zero();
        let mut i: usize = 0;
        while i < N
            invariant
                0 <= i <= 256,
                r.coeffs@.len() == 256,
                add_fits(self@, rhs@),
                forall|j: int| 0 <= j < i ==> #[trigger] r.coeffs@[j] as int
                    == (self.coeffs@[j] + rhs.coeffs@[j]) % q(),
                forall|j: int| 0 <= j < i ==> 0 <= #[trigger] r.coeffs@[j] < q(),
            decreases 256 - i,
        {
            assert(i32::MIN <= self@[i as int] + rhs@[i as int] <= i32::MAX);
            r.coeffs[i] = freeze(self.coeffs[i] + rhs.coeffs[i]);
            i += 1;
        }
        assert(r@ =~= add_spec(self@, rhs@));
        r
    }

    /// Coefficient-wise difference modulo q.
    pub fn sub(&self, rhs: &Self) -> (r: Self)
        requires
            sub_fits(self@, rhs@),
        ensures
            r@ == sub_spec(self@, rhs@),
            all_reduced(r.coeffs@),
    {
        let mut r = Self::zero();
        let mut i: usize = 0;
        while i < N
            invariant
                0 <= i <= 256,
                r.coeffs@.len() == 256,
                sub_fits(self@, rhs@),
                forall|j: int| 0 <= j < i ==> #[trigger] r.coeffs@[j] as int
                    == (self.coeffs@[j] - rhs.coeffs@[j]) % q(),
                forall|j: int| 0 <= j < i ==> 0 <= #[trigger] r.coeffs@[j] < q(),
            decreases 256 - i,
        {
            assert(i32::MIN <= self@[i as int] - rhs@[i as int] <= i32::MAX);
            r.coeffs[i] = freeze(self.coeffs[i] - rhs.coeffs[i]);
            i += 1;
        }
        assert(r@ =~= sub_spec(self@, rhs@));
        r
    }

    /// Reduces every coefficient into [0, q).
    pub fn reduce(&mut self)
        ensures
            final(self)@ == reduce_spec(old(self)@),
            all_reduced(final(self).coeffs@),
    {
        let ghost before = self@;
        let mut i: usize = 0;
        while i < N
            invariant
                0 <= i <= 256,
                self.coeffs@.len() == 256,
                before.len() == 256,
                forall|j: int| 0 <= j < i ==> #[trigger] self.coeffs@[j] as int == before[j] % q(),
                forall|j: int| 0 <= j < i ==> 0 <= #[trigger] self.coeffs@[j] < q(),
                forall|j: int| i <= j < 256 ==> #[trigger] self.coeffs@[j] as int == before[j],
            decreases 256 - i,
        {
            let c = self.coeffs[i];
            self.coeffs[i] = freeze(c);
            i += 1;
        }
        assert(self@ =~= reduce_spec(before));
    }

    /// Infinity-norm check on the centred representatives: every |c| < bound.
    pub fn chknorm(&self, bound: i32) -> (ok: bool)
        ensures
            ok == norm_below(self@, bound as int),
    {
        let mut i: usize = 0;
        while i < N
            invariant
                0 <= i <= 256,
                forall|j: int| 0 <= j < i ==> #[trigger] abs_spec(centered_spec(self@[j])) < bound,
            decreases 256 - i,
        {
            let c = centered(self.coeffs[i]);
            let a = if c < 0 { -c } else { c };
            if a >= bound {
                assert(abs_spec(centered_spec(self@[i as int])) >= bound);
                return false;
            }
            i += 1;
        }
        true
    }

    /// The i-th coefficient.
    pub fn coeff(&self, i: usize) -> (c: i32)
        requires
            i < 256,
        ensures
            c == self.coeffs@[i as int],
    {
        self.coeffs[i]
    }

    /// Sets the i-th coefficient.
    pub fn set_coeff(&mut self, i: usize, v: i32)
        requires
            i < 256,
        ensures
            final(self).coeffs@ == old(self).coeffs@.update(i as int, v),
    {
        self.coeffs[i] = v;
    }

    /// Overwrites every coefficient with zero.
    pub fn zeroize(&mut self)
        ensures
            forall|i: int| 0 <= i < 256 ==> #[trigger] final(self).coeffs@[i] == 0,
    {
        let mut i: usize = 0;
        while i < N
            invariant
                0 <= i <= 256,
                self.coeffs@.len() == 256,
                forall|j: int| 0 <= j < i ==> #[trigger] self.coeffs@[j] == 0,
            decreases 256 - i,
        {
            self.coeffs[i] = 0;
            i += 1;
        }
        compiler_fence_seqcst();
    }

    /// Power2Round of every coefficient: (high parts, low parts).
    pub fn power2round(&self) -> (res: (Self, Self))
        ensures
            forall|i: int| 0 <= i < 256 ==> #[trigger] res.0@[i] == power2round_spec(self@[i]).0
                && res.1@[i] == power2round_spec(self@[i]).1,
    {
        let mut hi = Self::zero();
        let mut lo = Self::zero();
        let mut i: usize = 0;
        while i < N
            invariant
                0 <= i <= 256,
                hi.coeffs@.len() == 256,
                lo.coeffs@.len() == 256,
                forall|j: int| 0 <= j < i ==> #[trigger] hi.coeffs@[j] as int
                    == power2round_spec(self.coeffs@[j] as int).0
                    && lo.coeffs@[j] as int == power2round_spec(self.coeffs@[j] as int).1,
            decreases 256 - i,
        {
            let (h, l) = power2round(self.coeffs[i]);
            hi.coeffs[i] = h;
            lo.coeffs[i] = l;
            i += 1;
        }
        (hi, lo)
    }

    /// Decompose of every coefficient: (high parts, low parts).
    pub fn decompose(&self) -> (res: (Self, Self))
        ensures
            forall|i: int| 0 <= i < 256 ==> #[trigger] res.0@[i] == decompose_spec(self@[i]).0
                && res.1@[i] == decompose_spec(self@[i]).1,
    {
        let mut hi = Self::zero();
        let mut lo = Self::zero();
        let mut i: usize = 0;
        while i < N
            invariant
                0 <= i <= 256,
                hi.coeffs@.len() == 256,
                lo.coeffs@.len() == 256,
                forall|j: int| 0 <= j < i ==> #[trigger] hi.coeffs@[j] as int
                    == decompose_spec(self.coeffs@[j] as int).0
                    && lo.coeffs@[j] as int == decompose_spec(self.coeffs@[j] as int).1,
            decreases 256 - i,
        {
            let (h, l) = decompose(self.coeffs[i]);
            hi.coeffs[i] = h;
            lo.coeffs[i] = l;
            i += 1;
        }
        (hi, lo)
    }
}

} // verus!

verus! {

// ---------------------------------------------------------------------------
// SHAKE (FIPS 202) as used by FIPS 204, Section 3.7
// ---------------------------------------------------------------------------

/// The first `len` bytes of SHAKE128 on `input`.
pub uninterp spec fn shake128_output(input: Seq<u8>, len: nat) -> Seq<u8>;

/// The first `len` bytes of SHAKE256 on `input`.
pub uninterp spec fn shake256_output(input: Seq<u8>, len: nat) -> Seq<u8>;

/// Fills `output` with SHAKE128(input) (sha3::Shake128: absorb `input`, squeeze
/// `output.len()` bytes). Trusted: the bytes are the named SHAKE128 output.
#[verifier::external_body]
pub fn shake128(output: &mut [u8], input: &[u8])
    ensures
        final(output)@ == shake128_output(input@, old(output)@.len()),
        final(output)@.len() == old(output)@.len(),
{
    let mut h = Shake128::default();
    h.update(input);
    h.finalize_xof().read(output);
}

/// Fills `output` with SHAKE256(input) (sha3::Shake256). Trusted: the bytes are
/// the named SHAKE256 output.
#[verifier::external_body]
pub fn shake256(output: &mut [u8], input: &[u8])
    ensures
        final(output)@ == shake256_output(input@, old(output)@.len()),
        final(output)@.len() == old(output)@.len(),
{
    let mut h = Shake256::default();
    h.update(input);
    h.finalize_xof().read(output);
}

/// Fills `output` with SHAKE256(a || b): two `update` calls absorb the
/// concatenation of their inputs. Trusted as for `shake256`.
#[verifier::external_body]
pub fn shake256_2(output: &mut [u8], a: &[u8], b: &[u8])
    ensures
        final(output)@ == shake256_output(a@ + b@, old(output)@.len()),
        final(output)@.len() == old(output)@.len(),
{
    let mut h = Shake256::default();
    h.update(a);
    h.update(b);
    h.finalize_xof().read(output);
}

/// Fills `output` with SHAKE256(a || b || c). Trusted as for `shake256`.
#[verifier::external_body]
pub fn shake256_3(output: &mut [u8], a: &[u8], b: &[u8], c: &[u8])
    ensures
        final(output)@ == shake256_output(a@ + b@ + c@, old(output)@.len()),
        final(output)@.len() == old(output)@.len(),
{
    let mut h = Shake256::default();
    h.update(a);
    h.update(b);
    h.update(c);
    h.finalize_xof().read(output);
}

} // verus!

verus! {

// ---------------------------------------------------------------------------
// Properties of Decompose, MakeHint and UseHint
// ---------------------------------------------------------------------------

/// Decompose by intervals: for x in [0, q) and k = (x + gamma2 - 1) / (2*gamma2),
/// the high part is k mod 16 and the low part is x - 2*gamma2*k, or x - q when
/// k is 16.
#[verifier::spinoff_prover]
pub proof fn lemma_decompose_index(x: int)
    requires
        0 <= x < q(),
    ensures
        0 <= (x + 261887) / 523776 <= 16,
        -261888 < x - 523776 * ((x + 261887) / 523776) <= 261888,
        decompose_spec(x).0 == ((x + 261887) / 523776) % 16,
        decompose_spec(x).1 == if (x + 261887) / 523776 == 16 { x - q() }
            else { x - 523776 * ((x + 261887) / 523776) },
{
    let a = 523776int;
    let d = x / a;
    let t = x % a;
    vstd::arithmetic::div_mod::lemma_fundamental_div_mod(x, a);
    assert(0 <= t < a);
    vstd::arithmetic::div_mod::lemma_small_mod(x as nat, q() as nat);
    let k = (x + 261887) / a;
    if t <= 261888 {
        vstd::arithmetic::div_mod::lemma_fundamental_div_mod_converse(x + 261887, a, d, t + 261887);
    } else {
        vstd::arithmetic::div_mod::lemma_fundamental_div_mod_converse(x + 261887, a, d + 1, t + 261887 - a);
    }
    assert(mod_pm(x, a) == x - a * k);
    assert(0 <= k <= 16);
    vstd::arithmetic::div_mod::lemma_fundamental_div_mod_converse(a * k, a, k, 0);
    assert(x - mod_pm(x, a) == a * k);
    if k < 16 {
        vstd::arithmetic::div_mod::lemma_small_mod(k as nat, 16);
    } else {
        assert(k % 16 == 0);
    }
}

/// Decompose only depends on its argument modulo q.
pub proof fn lemma_decompose_mod(r: int)
    ensures
        decompose_spec(r) == decompose_spec(r % q()),
        0 <= r % q() < q(),
{
    vstd::arithmetic::div_mod::lemma_mod_twice(r, q());
}

/// The hint recovers the high bits (FIPS 204, Lemma 1): when z is small
/// (its centred representative at most gamma2 in absolute value), UseHint with
/// the hint MakeHint(z, r) turns the high bits of r into those of r + z.
#[verifier::spinoff_prover]
pub proof fn lemma_use_hint_recovers(z: int, r: int)
    requires
        abs_spec(centered_spec(z)) <= 261888,
    ensures
        use_hint_spec(make_hint_spec(z, r), r) == decompose_spec(r + z).0,
{
    let a = 523776int;
    let x = r % q();
    let zc = centered_spec(z);
    lemma_decompose_mod(r);
    lemma_decompose_mod(r + z);
    lemma_decompose_mod((r + z) % q());
    // (r + z) mod q is (x + zc) mod q.
    assert((r + z) % q() == (x + zc) % q()) by {
        vstd::arithmetic::div_mod::lemma_add_mod_noop(r, z, q());
        vstd::arithmetic::div_mod::lemma_add_mod_noop(x, zc, q());
        vstd::arithmetic::div_mod::lemma_mod_twice(r, q());
        vstd::arithmetic::div_mod::lemma_mod_twice(z, q());
        assert(zc % q() == z % q()) by {
            let m = z % q();
            if m > (q() - 1) / 2 {
                vstd::arithmetic::div_mod::lemma_mod_multiples_vanish(-1, m, q());
                assert(q() * -1 + m == zc);
            }
            vstd::arithmetic::div_mod::lemma_mod_twice(z, q());
        }
    }
    let v = (x + zc) % q();
    assert(0 <= v < q());
    lemma_decompose_index(x);
    lemma_decompose_index(v);
    let kx = (x + 261887) / a;
    let kv = (v + 261887) / a;
    let r0 = x - a * kx;
    if x + zc >= q() {
        vstd::arithmetic::div_mod::lemma_fundamental_div_mod_converse(x + zc, q(), 1, x + zc - q());
        assert(v == x + zc - q());
        assert(kx == 16);
        assert(kv == 0);
    } else if x + zc < 0 {
        vstd::arithmetic::div_mod::lemma_fundamental_div_mod_converse(x + zc, q(), -1, x + zc + q());
        assert(v == x + zc + q());
        assert(kx == 0);
        assert(kv == 16);
    } else {
        vstd::arithmetic::div_mod::lemma_small_mod((x + zc) as nat, q() as nat);
        assert(v == x + zc);
        if r0 > 0 {
            assert(kv == kx || kv == kx + 1) by {
                if kv < kx {
                    assert(a * kv <= a * kx - a);
                }
                if kv > kx + 1 {
                    assert(a * kv >= a * kx + 2 * a);
                }
            }
            if kv == kx + 1 {
                assert(decompose_spec(x).1 > 0);
                assert(((kx % 16) + 1) % 16 == (kx + 1) % 16);
            }
        } else {
            assert(kv == kx || kv == kx - 1) by {
                if kv < kx - 1 {
                    assert(a * kv <= a * kx - 2 * a);
                }
                if kv > kx {
                    assert(a * kv >= a * kx + a);
                }
            }
            if kv == kx - 1 {
                assert(decompose_spec(x).1 <= 0);
                assert(((kx % 16) - 1) % 16 == (kx - 1) % 16);
            }
        }
    }
}


/// A small integer is its own centred representative.
pub proof fn lemma_centered_small(y: int)
    requires
        -(q() - 1) / 2 <= y <= (q() - 1) / 2,
    ensures
        centered_spec(y) == y,
{
    if y >= 0 {
        vstd::arithmetic::div_mod::lemma_small_mod(y as nat, q() as nat);
    } else {
        vstd::arithmetic::div_mod::lemma_fundamental_div_mod_converse(y, q(), -1, y + q());
    }
}

/// The centred representative is congruent to its argument.
pub proof fn lemma_centered_mod(y: int)
    ensures
        centered_spec(y) % q() == y % q(),
        -(q() - 1) / 2 <= centered_spec(y) <= (q() - 1) / 2,
{
    let m = y % q();
    vstd::arithmetic::div_mod::lemma_mod_twice(y, q());
    if m > (q() - 1) / 2 {
        vstd::arithmetic::div_mod::lemma_mod_multiples_vanish(-1, m, q());
        assert(q() * -1 + m == centered_spec(y));
    }
}

/// The high bits of r do not move when a small d is added, as long as the low
/// bits of r stay at least d away from the rounding boundaries: with low bits
/// below gamma2 - beta and d at most beta (beta = 196) in absolute value.
#[verifier::spinoff_prover]
pub proof fn lemma_high_bits_stable(r: int, d: int)
    requires
        abs_spec(centered_spec(decompose_spec(r).1)) < 261692,
        abs_spec(centered_spec(d)) < 197,
    ensures
        decompose_spec(r + d).0 == decompose_spec(r).0,
{
    let a = 523776int;
    let x = r % q();
    let dc = centered_spec(d);
    lemma_decompose_mod(r);
    lemma_decompose_mod(r + d);
    lemma_centered_mod(d);
    assert((r + d) % q() == (x + dc) % q()) by {
        vstd::arithmetic::div_mod::lemma_add_mod_noop(r, d, q());
        vstd::arithmetic::div_mod::lemma_add_mod_noop(x, dc, q());
        vstd::arithmetic::div_mod::lemma_mod_twice(r, q());
        vstd::arithmetic::div_mod::lemma_mod_twice(d, q());
    }
    let v = (x + dc) % q();
    lemma_decompose_mod((r + d) % q());
    assert(0 <= v < q());
    lemma_decompose_index(x);
    lemma_decompose_index(v);
    let kx = (x + 261887) / a;
    let kv = (v + 261887) / a;
    let low = decompose_spec(x).1;
    lemma_centered_small(low);
    if x + dc >= q() {
        vstd::arithmetic::div_mod::lemma_fundamental_div_mod_converse(x + dc, q(), 1, x + dc - q());
        assert(kx == 16);
        assert(kv == 0);
    } else if x + dc < 0 {
        vstd::arithmetic::div_mod::lemma_fundamental_div_mod_converse(x + dc, q(), -1, x + dc + q());
        assert(kx == 0);
        assert(kv == 16);
    } else {
        vstd::arithmetic::div_mod::lemma_small_mod((x + dc) as nat, q() as nat);
        assert(v == x + dc);
        if kx == 16 {
            assert(kv == 16) by {
                if kv < 16 {
                    assert(a * kv <= 15 * a);
                }
            }
        } else {
            assert(kv == kx) by {
                if kv < kx {
                    assert(a * kv <= a * kx - a);
                }
                if kv > kx {
                    assert(a * kv >= a * kx + a);
                }
            }
        }
    }
}

} // verus!
