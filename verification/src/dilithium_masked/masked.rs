//! Masked signing: every secret coefficient is held as two additive shares
//! modulo q, so that no single intermediate value is the secret itself.

use vstd::prelude::*;
use crate::constants::{K, L, N, Q, SEEDBYTES, TRBYTES, KEYBYTES, SECRETKEYBYTES, SIGNBYTES};
use crate::polynomial::{q, Poly, add_spec, sub_spec, pointwise_spec, reduce_spec, freeze, abs_spec, centered_spec, norm_below};
use crate::mldsa_spec::{dot_upto, matmul_spec, mv, vnorm_below, lemma_block_index, pv, vec_reduced, vreduce, vntt,
    vinvntt, vadd, vsub, cmul, message_digest, private_seed, loop_with, sk_rho, sk_key, sk_tr, sk_s1, sk_s2, sk_t0,
    attempt_with, sign_attempt, sign_loop, sign_spec, expand_a_spec, commitment, response_z, response_wm, response_ct0,
    formatted_message, mask_spec};
use crate::dilithium_masked::{MlDsaError, random_words, random_bytes, take32, take64, unpack_s1, unpack_s2, unpack_t0,
    mask_vector, challenge_seed, finish_attempt, vecl_centered, pack_z, write_bytes, expand_a, format_message,
    lemma_small_ntt_ok};
use crate::polynomial::{shake256_2, shake256_3};
use crate::sampling::sample_in_ball;
use crate::ntt::{ntt_spec, invntt_spec, ntt_input_ok, invntt_input_ok, all_reduced, lemma_ntt_additive, lemma_invntt_additive,
    lemma_ntt_input_small, lemma_invntt_input_small, lemma_ntt_of_reduced};

verus! {

/// Remainder of x by q with the sign of x, as Rust's `%` computes it.
pub open spec fn trem(x: int) -> int {
    if x >= 0 { x % q() } else { -((-x) % q()) }
}

/// The truncated remainder agrees with x modulo q.
pub proof fn lemma_trem(x: int)
    ensures
        trem(x) % q() == x % q(),
        -q() < trem(x) < q(),
{
    if x < 0 {
        vstd::arithmetic::div_mod::lemma_fundamental_div_mod(-x, q());
        let d = (-x) / q();
        assert(trem(x) == x + q() * d);
        vstd::arithmetic::div_mod::lemma_mod_multiples_vanish(d, x, q());
    }
}

/// Sums of residues modulo q: ((a % q) + (b % q)) % q == (a + b) % q.
proof fn lemma_add_mod(a: int, b: int)
    ensures
        ((a % q()) + (b % q())) % q() == (a + b) % q(),
        ((a % q()) - (b % q())) % q() == (a - b) % q(),
{
    vstd::arithmetic::div_mod::lemma_add_mod_noop(a, b, q());
    vstd::arithmetic::div_mod::lemma_sub_mod_noop(a, b, q());
}

/// A coefficient held as two shares whose sum modulo q is its value.
#[derive(Debug, Clone, Copy)]
pub struct MaskedCoeff {
    pub share_0: i32,
    pub share_1: i32,
}

impl MaskedCoeff {
    /// The value the shares stand for: (share_0 + share_1) mod q.
    pub open spec fn value(self) -> int {
        (self.share_0 + self.share_1) % q()
    }

    /// Share-wise sum, each reduced into [0, q).
    pub open spec fn sum_spec(self, other: Self) -> Self {
        MaskedCoeff {
            share_0: ((self.share_0 + other.share_0) % q()) as i32,
            share_1: ((self.share_1 + other.share_1) % q()) as i32,
        }
    }

    /// Share-wise difference, each reduced into [0, q).
    pub open spec fn diff_spec(self, other: Self) -> Self {
        MaskedCoeff {
            share_0: ((self.share_0 - other.share_0) % q()) as i32,
            share_1: ((self.share_1 - other.share_1) % q()) as i32,
        }
    }

    /// Share-wise product with a public scalar, each with the truncated remainder.
    pub open spec fn scaled_spec(self, scalar: int) -> Self {
        MaskedCoeff {
            share_0: trem(self.share_0 * scalar) as i32,
            share_1: trem(self.share_1 * scalar) as i32,
        }
    }

    /// Share sums of both operands stay within i32.
    pub open spec fn sum_fits(self, other: Self) -> bool {
        &&& i32::MIN <= self.share_0 + other.share_0 <= i32::MAX
        &&& i32::MIN <= self.share_1 + other.share_1 <= i32::MAX
    }

    /// Share differences of both operands stay within i32.
    pub open spec fn diff_fits(self, other: Self) -> bool {
        &&& i32::MIN <= self.share_0 - other.share_0 <= i32::MAX
        &&& i32::MIN <= self.share_1 - other.share_1 <= i32::MAX
    }

    /// Splits `secret` with the random word `random`: share_0 = random mod q and
    /// share_1 = (secret - share_0) mod q.
    pub fn new(secret: i32, random: u32) -> (r: Self)
        requires
            i32::MIN <= secret - (random as int) % q(),
        ensures
            r.share_0 == (random as int) % q(),
            r.share_1 == (secret - r.share_0) % q(),
            r.value() == (secret as int) % q(),
    {
        let share_0 = (random % (Q as u32)) as i32;
        let share_1 = freeze(secret - share_0);
        proof {
            vstd::arithmetic::div_mod::lemma_add_mod_noop(share_0 as int, secret - share_0, q());
            vstd::arithmetic::div_mod::lemma_small_mod(share_0 as nat, q() as nat);
        }
        Self { share_0, share_1 }
    }

    /// Share-wise sum modulo q; the value is the sum of the values.
    pub fn add(&self, other: &Self) -> (r: Self)
        requires
            self.sum_fits(*other),
        ensures
            r == self.sum_spec(*other),
            r.value() == (self.value() + other.value()) % q(),
    {
        let r = Self {
            share_0: freeze(self.share_0 + other.share_0),
            share_1: freeze(self.share_1 + other.share_1),
        };
        proof {
            lemma_sum_value(*self, *other);
        }
        r
    }

    /// Share-wise difference modulo q; the value is the difference of the values.
    pub fn sub(&self, other: &Self) -> (r: Self)
        requires
            self.diff_fits(*other),
        ensures
            r == self.diff_spec(*other),
            r.value() == (self.value() - other.value()) % q(),
    {
        let r = Self {
            share_0: freeze(self.share_0 - other.share_0),
            share_1: freeze(self.share_1 - other.share_1),
        };
        proof {
            lemma_diff_value(*self, *other);
        }
        r
    }

    /// Multiplies both shares by a public scalar, with the truncated remainder
    /// modulo q; the value is multiplied by the scalar.
    pub fn mul_public(&self, scalar: i32) -> (r: Self)
        ensures
            r == self.scaled_spec(scalar as int),
            r.value() == (self.value() * scalar) % q(),
    {
        proof {
            lemma_i32_product(self.share_0, scalar);
            lemma_i32_product(self.share_1, scalar);
        }
        let p0 = self.share_0 as i64 * scalar as i64;
        let p1 = self.share_1 as i64 * scalar as i64;
        proof {
            lemma_trem(p0 as int);
            lemma_trem(p1 as int);
            lemma_scaled_value(*self, scalar as int);
        }
        Self { share_0: (p0 % (Q as i64)) as i32, share_1: (p1 % (Q as i64)) as i32 }
    }

    /// Overwrites both shares with zero.
    pub fn zeroize(&mut self)
        ensures
            final(self).share_0 == 0,
            final(self).share_1 == 0,
    {
        self.share_0 = 0;
        self.share_1 = 0;
    }
}

/// A product of two i32 values fits in an i64.
proof fn lemma_i32_product(a: i32, b: i32)
    ensures
        -4611686018427387904 <= a * b <= 4611686018427387904,
{
    assert(-4611686018427387904 <= a * b <= 4611686018427387904) by (nonlinear_arith)
        requires -2147483648 <= a <= 2147483647, -2147483648 <= b <= 2147483647;
}

proof fn lemma_sum_value(a: MaskedCoeff, b: MaskedCoeff)
    ensures
        a.sum_spec(b).value() == (a.value() + b.value()) % q(),
{
    let x0 = a.share_0 + b.share_0;
    let x1 = a.share_1 + b.share_1;
    lemma_add_mod(x0, x1);
    lemma_add_mod(a.share_0 + a.share_1, b.share_0 + b.share_1);
}

proof fn lemma_diff_value(a: MaskedCoeff, b: MaskedCoeff)
    ensures
        a.diff_spec(b).value() == (a.value() - b.value()) % q(),
{
    let x0 = a.share_0 - b.share_0;
    let x1 = a.share_1 - b.share_1;
    lemma_add_mod(x0, x1);
    lemma_add_mod(a.share_0 + a.share_1, b.share_0 + b.share_1);
}

proof fn lemma_scaled_value(a: MaskedCoeff, c: int)
    requires
        i32::MIN <= trem(a.share_0 * c) <= i32::MAX,
        i32::MIN <= trem(a.share_1 * c) <= i32::MAX,
    ensures
        a.scaled_spec(c).value() == (a.value() * c) % q(),
{
    let p0 = a.share_0 * c;
    let p1 = a.share_1 * c;
    lemma_trem(p0);
    lemma_trem(p1);
    lemma_add_mod(trem(p0), trem(p1));
    lemma_add_mod(p0, p1);
    assert(p0 + p1 == (a.share_0 + a.share_1) * c) by (nonlinear_arith)
        requires p0 == a.share_0 * c, p1 == a.share_1 * c;
    vstd::arithmetic::div_mod::lemma_mul_mod_noop_left(a.share_0 + a.share_1, c, q());
}


/// A polynomial whose coefficients are masked.
#[derive(Debug, Clone)]
pub struct MaskedPoly {
    pub coeffs: Box<[MaskedCoeff; N]>,
}

impl MaskedPoly {
    /// The polynomial the shares stand for.
    pub open spec fn value(self) -> Seq<int> {
        Seq::new(256, |i: int| self.coeffs@[i].value())
    }

    /// The first shares of all coefficients.
    pub open spec fn share0(self) -> Seq<i32> {
        Seq::new(256, |i: int| self.coeffs@[i].share_0)
    }

    /// The second shares of all coefficients.
    pub open spec fn share1(self) -> Seq<i32> {
        Seq::new(256, |i: int| self.coeffs@[i].share_1)
    }

    /// Every share lies in [0, q).
    pub open spec fn shares_reduced(self) -> bool {
        forall|i: int| 0 <= i < 256 ==> 0 <= #[trigger] self.coeffs@[i].share_0 < q()
            && 0 <= self.coeffs@[i].share_1 < q()
    }

    /// Both shares are valid inputs of the forward NTT.
    pub open spec fn ntt_ready(self) -> bool {
        ntt_input_ok(self.share0()) && ntt_input_ok(self.share1())
    }

    /// Every share sum stays within i32.
    pub open spec fn shares_fit(self) -> bool {
        forall|i: int| 0 <= i < 256 ==> i32::MIN <= #[trigger] self.coeffs@[i].share_0
            + self.coeffs@[i].share_1 <= i32::MAX
    }

    /// Masks `plain` with one random word per coefficient (coefficient i takes
    /// randoms[i]).
    pub fn new(plain: &Poly, randoms: &[u32]) -> (r: Self)
        requires
            randoms@.len() >= 256,
            forall|i: int| 0 <= i < 256 ==> i32::MIN <= #[trigger] plain.coeffs@[i] - (randoms@[i] as int) % q(),
        ensures
            forall|i: int| 0 <= i < 256 ==> #[trigger] r.coeffs@[i].share_0 == (randoms@[i] as int) % q()
                && r.coeffs@[i].share_1 == (plain.coeffs@[i] - r.coeffs@[i].share_0) % q(),
            r.value() == crate::polynomial::reduce_spec(plain@),
            r.shares_reduced(),
    {
        let mut r = Self::zero();
        let mut i: usize = 0;
        while i < N
            invariant
                0 <= i <= 256,
                randoms@.len() >= 256,
                r.coeffs@.len() == 256,
                forall|j: int| 0 <= j < 256 ==> i32::MIN <= #[trigger] plain.coeffs@[j] - (randoms@[j] as int) % q(),
                forall|j: int| 0 <= j < i ==> #[trigger] r.coeffs@[j].share_0 == (randoms@[j] as int) % q()
                    && r.coeffs@[j].share_1 == (plain.coeffs@[j] - r.coeffs@[j].share_0) % q()
                    && r.coeffs@[j].value() == (plain.coeffs@[j] as int) % q(),
            decreases 256 - i,
        {
            r.coeffs[i] = MaskedCoeff::new(plain.coeffs[i], randoms[i]);
            i += 1;
        }
        assert(r.value() =~= crate::polynomial::reduce_spec(plain@));
        r
    }

    /// The masked zero polynomial: all shares 0.
    pub fn zero() -> (p: Self)
        ensures
            forall|i: int| 0 <= i < 256 ==> #[trigger] p.coeffs@[i] == (MaskedCoeff { share_0: 0, share_1: 0 }),
            p.coeffs@.len() == 256,
            p.shares_reduced(),
    {
        Self { coeffs: Box::new([MaskedCoeff { share_0: 0, share_1: 0 }; 256]) }
    }

    /// Reconstructs the polynomial into a holder that can be cleared.
    pub fn secure_reconstruct(&self) -> (r: SecurePoly)
        requires
            self.shares_fit(),
        ensures
            r.poly()@ == self.value(),
    {
        SecurePoly::new(self)
    }

    /// Reconstructs the polynomial, hands it to `f` to work on in place, then
    /// overwrites every coefficient with zero.
    pub fn reconstruct_consumed<F: FnOnce(&mut Poly)>(&self, f: F)
        requires
            self.shares_fit(),
            forall|p: &mut Poly| (*p)@ == self.value() ==> call_requires(f, (p,)),
    {
        let mut s = SecurePoly::new(self);
        {
            let p = s.get_mut();
            f(p);
        }
        s.zeroize();
    }

    /// Coefficient-wise share sum; the value is the sum of the values.
    pub fn add(&self, other: &Self) -> (r: Self)
        requires
            forall|i: int| 0 <= i < 256 ==> #[trigger] self.coeffs@[i].sum_fits(other.coeffs@[i]),
        ensures
            forall|i: int| 0 <= i < 256 ==> #[trigger] r.coeffs@[i] == self.coeffs@[i].sum_spec(other.coeffs@[i]),
            r.value() == add_spec(self.value(), other.value()),
            r.shares_reduced(),
    {
        let mut result = Self::zero();
        let mut i: usize = 0;
        while i < N
            invariant
                0 <= i <= 256,
                result.coeffs@.len() == 256,
                forall|j: int| 0 <= j < 256 ==> #[trigger] self.coeffs@[j].sum_fits(other.coeffs@[j]),
                forall|j: int| 0 <= j < i ==> #[trigger] result.coeffs@[j] == self.coeffs@[j].sum_spec(other.coeffs@[j])
                    && result.coeffs@[j].value() == (self.coeffs@[j].value() + other.coeffs@[j].value()) % q()
                    && 0 <= result.coeffs@[j].share_0 < q() && 0 <= result.coeffs@[j].share_1 < q(),
                forall|j: int| i <= j < 256 ==> #[trigger] result.coeffs@[j] == (MaskedCoeff { share_0: 0, share_1: 0 }),
            decreases 256 - i,
        {
            result.coeffs[i] = self.coeffs[i].add(&other.coeffs[i]);
            i += 1;
        }
        assert(result.value() =~= add_spec(self.value(), other.value()));
        result
    }

    /// Coefficient-wise share difference; the value is the difference of the values.
    pub fn sub(&self, other: &Self) -> (r: Self)
        requires
            forall|i: int| 0 <= i < 256 ==> #[trigger] self.coeffs@[i].diff_fits(other.coeffs@[i]),
        ensures
            forall|i: int| 0 <= i < 256 ==> #[trigger] r.coeffs@[i] == self.coeffs@[i].diff_spec(other.coeffs@[i]),
            r.value() == sub_spec(self.value(), other.value()),
            r.shares_reduced(),
    {
        let mut result = Self::zero();
        let mut i: usize = 0;
        while i < N
            invariant
                0 <= i <= 256,
                result.coeffs@.len() == 256,
                forall|j: int| 0 <= j < 256 ==> #[trigger] self.coeffs@[j].diff_fits(other.coeffs@[j]),
                forall|j: int| 0 <= j < i ==> #[trigger] result.coeffs@[j] == self.coeffs@[j].diff_spec(other.coeffs@[j])
                    && result.coeffs@[j].value() == (self.coeffs@[j].value() - other.coeffs@[j].value()) % q()
                    && 0 <= result.coeffs@[j].share_0 < q() && 0 <= result.coeffs@[j].share_1 < q(),
                forall|j: int| i <= j < 256 ==> #[trigger] result.coeffs@[j] == (MaskedCoeff { share_0: 0, share_1: 0 }),
            decreases 256 - i,
        {
            result.coeffs[i] = self.coeffs[i].sub(&other.coeffs[i]);
            i += 1;
        }
        assert(result.value() =~= sub_spec(self.value(), other.value()));
        result
    }

    /// Multiplies every coefficient by the matching coefficient of a public
    /// polynomial; the value is the pointwise product.
    pub fn mul_public(&self, public: &Poly) -> (r: Self)
        ensures
            forall|i: int| 0 <= i < 256 ==> #[trigger] r.coeffs@[i] == self.coeffs@[i].scaled_spec(public.coeffs@[i] as int),
            r.value() == pointwise_spec(self.value(), public@),
    {
        let mut result = Self::zero();
        let mut i: usize = 0;
        while i < N
            invariant
                0 <= i <= 256,
                result.coeffs@.len() == 256,
                forall|j: int| 0 <= j < i ==> #[trigger] result.coeffs@[j] == self.coeffs@[j].scaled_spec(public.coeffs@[j] as int)
                    && result.coeffs@[j].value() == (self.coeffs@[j].value() * public.coeffs@[j]) % q(),
            decreases 256 - i,
        {
            result.coeffs[i] = self.coeffs[i].mul_public(public.coeffs[i]);
            i += 1;
        }
        assert(result.value() =~= pointwise_spec(self.value(), public@));
        result
    }

    /// Forward NTT of each share; the value is the NTT of the value.
    pub fn ntt(&mut self)
        requires
            ntt_input_ok(old(self).share0()),
            ntt_input_ok(old(self).share1()),
        ensures
            crate::ntt::ints(final(self).share0()) == ntt_spec(crate::ntt::ints(old(self).share0())),
            crate::ntt::ints(final(self).share1()) == ntt_spec(crate::ntt::ints(old(self).share1())),
            final(self).value() == ntt_spec(old(self).value()),
            final(self).shares_reduced(),
    {
        let (mut p0, mut p1) = self.split();
        p0.ntt();
        p1.ntt();
        self.join(&p0, &p1);
        proof {
            lemma_value_of_shares(*old(self));
            lemma_value_of_shares(*self);
            lemma_ntt_additive(p0_view(*old(self)), p1_view(*old(self)));
            assert forall|i: int| 0 <= i < 256 implies 0 <= #[trigger] self.coeffs@[i].share_0 < q()
                && 0 <= self.coeffs@[i].share_1 < q() by {
                assert(self.share0()[i] == p0.coeffs@[i]);
                assert(self.share1()[i] == p1.coeffs@[i]);
            }
        }
        crate::polynomial::compiler_fence_seqcst();
    }

    /// Inverse NTT of each share; the value is the inverse NTT of the value.
    pub fn invntt(&mut self)
        requires
            invntt_input_ok(old(self).share0()),
            invntt_input_ok(old(self).share1()),
        ensures
            crate::ntt::ints(final(self).share0()) == invntt_spec(crate::ntt::ints(old(self).share0())),
            crate::ntt::ints(final(self).share1()) == invntt_spec(crate::ntt::ints(old(self).share1())),
            final(self).value() == invntt_spec(old(self).value()),
            final(self).shares_reduced(),
    {
        let (mut p0, mut p1) = self.split();
        p0.invntt();
        p1.invntt();
        self.join(&p0, &p1);
        proof {
            lemma_value_of_shares(*old(self));
            lemma_value_of_shares(*self);
            lemma_invntt_additive(p0_view(*old(self)), p1_view(*old(self)));
            assert forall|i: int| 0 <= i < 256 implies 0 <= #[trigger] self.coeffs@[i].share_0 < q()
                && 0 <= self.coeffs@[i].share_1 < q() by {
                assert(self.share0()[i] == p0.coeffs@[i]);
                assert(self.share1()[i] == p1.coeffs@[i]);
            }
        }
        crate::polynomial::compiler_fence_seqcst();
    }

    /// The two shares as plain polynomials.
    fn split(&self) -> (r: (Poly, Poly))
        ensures
            r.0.coeffs@ == self.share0(),
            r.1.coeffs@ == self.share1(),
    {
        let mut p0 = Poly::zero();
        let mut p1 = Poly::zero();
        let mut i: usize = 0;
        while i < N
            invariant
                0 <= i <= 256,
                p0.coeffs@.len() == 256,
                p1.coeffs@.len() == 256,
                forall|j: int| 0 <= j < i ==> #[trigger] p0.coeffs@[j] == self.coeffs@[j].share_0,
                forall|j: int| 0 <= j < i ==> #[trigger] p1.coeffs@[j] == self.coeffs@[j].share_1,
            decreases 256 - i,
        {
            p0.coeffs[i] = self.coeffs[i].share_0;
            p1.coeffs[i] = self.coeffs[i].share_1;
            i += 1;
        }
        assert(p0.coeffs@ =~= self.share0());
        assert(p1.coeffs@ =~= self.share1());
        (p0, p1)
    }

    /// Replaces the shares by the coefficients of two plain polynomials.
    fn join(&mut self, p0: &Poly, p1: &Poly)
        requires
            old(self).coeffs@.len() == 256,
        ensures
            final(self).share0() == p0.coeffs@,
            final(self).share1() == p1.coeffs@,
            final(self).coeffs@.len() == 256,
    {
        let mut i: usize = 0;
        while i < N
            invariant
                0 <= i <= 256,
                self.coeffs@.len() == 256,
                forall|j: int| 0 <= j < i ==> #[trigger] self.coeffs@[j].share_0 == p0.coeffs@[j],
                forall|j: int| 0 <= j < i ==> #[trigger] self.coeffs@[j].share_1 == p1.coeffs@[j],
            decreases 256 - i,
        {
            self.coeffs[i] = MaskedCoeff { share_0: p0.coeffs[i], share_1: p1.coeffs[i] };
            i += 1;
        }
        assert(self.share0() =~= p0.coeffs@);
        assert(self.share1() =~= p1.coeffs@);
    }
}

/// The first shares of a masked polynomial as integers.
pub open spec fn p0_view(p: MaskedPoly) -> Seq<int> {
    crate::ntt::ints(p.share0())
}

/// The second shares of a masked polynomial as integers.
pub open spec fn p1_view(p: MaskedPoly) -> Seq<int> {
    crate::ntt::ints(p.share1())
}

/// The value of a masked polynomial is the sum of its shares modulo q.
pub proof fn lemma_value_of_shares(p: MaskedPoly)
    ensures
        p.value() == add_spec(p0_view(p), p1_view(p)),
{
    assert(p.value() =~= add_spec(p0_view(p), p1_view(p)));
}

/// A polynomial reconstructed from its shares, cleared on request.
pub struct SecurePoly {
    poly: Poly,
}

impl SecurePoly {
    /// The reconstructed polynomial.
    pub closed spec fn poly(self) -> Poly {
        self.poly
    }

    fn new(masked: &MaskedPoly) -> (r: Self)
        requires
            masked.shares_fit(),
        ensures
            r.poly()@ == masked.value(),
    {
        let mut poly = Poly::zero();
        let mut i: usize = 0;
        while i < N
            invariant
                0 <= i <= 256,
                poly.coeffs@.len() == 256,
                masked.shares_fit(),
                forall|j: int| 0 <= j < i ==> #[trigger] poly.coeffs@[j] as int == masked.coeffs@[j].value(),
            decreases 256 - i,
        {
            let c = masked.coeffs[i];
            assert(i32::MIN <= masked.coeffs@[i as int].share_0 + masked.coeffs@[i as int].share_1 <= i32::MAX);
            poly.coeffs[i] = freeze(c.share_0 + c.share_1);
            i += 1;
        }
        assert(poly@ =~= masked.value());
        Self { poly }
    }

    /// Mutable access to the reconstructed polynomial.
    pub fn get_mut(&mut self) -> (r: &mut Poly)
        ensures
            *r == old(self).poly(),
            final(self).poly() == *final(r),
    {
        &mut self.poly
    }

    /// Hands out the reconstructed polynomial.
    pub fn consume(self) -> (r: Poly)
        ensures
            r == self.poly(),
    {
        self.poly
    }

    /// Overwrites every coefficient with zero.
    pub fn zeroize(&mut self)
        ensures
            forall|i: int| 0 <= i < 256 ==> #[trigger] final(self).poly().coeffs@[i] == 0,
    {
        self.poly.zeroize();
    }
}


/// A vector of L masked polynomials.
pub type MaskedVecL = Box<[MaskedPoly; L]>;

/// A vector of K masked polynomials.
pub type MaskedVecK = Box<[MaskedPoly; K]>;

/// The first shares of a vector of masked polynomials.
pub open spec fn shares0_of(v: Seq<MaskedPoly>) -> Seq<Seq<int>> {
    Seq::new(v.len(), |j: int| p0_view(v[j]))
}

/// The second shares of a vector of masked polynomials.
pub open spec fn shares1_of(v: Seq<MaskedPoly>) -> Seq<Seq<int>> {
    Seq::new(v.len(), |j: int| p1_view(v[j]))
}

/// The values of a vector of masked polynomials.
pub open spec fn values_of(v: Seq<MaskedPoly>) -> Seq<Seq<int>> {
    Seq::new(v.len(), |j: int| v[j].value())
}

fn copy_poly(p: &MaskedPoly) -> (r: MaskedPoly)
    ensures
        r == *p,
{
    MaskedPoly { coeffs: Box::new(*p.coeffs) }
}

/// L masked zero polynomials.
pub fn zero_masked_vec_l() -> (v: MaskedVecL)
    ensures
        forall|j: int, c: int| 0 <= j < 5 && 0 <= c < 256 ==>
            #[trigger] v@[j].coeffs@[c] == (MaskedCoeff { share_0: 0, share_1: 0 }),
        forall|j: int| 0 <= j < 5 ==> #[trigger] v@[j].coeffs@.len() == 256,
{
    Box::new([MaskedPoly::zero(), MaskedPoly::zero(), MaskedPoly::zero(), MaskedPoly::zero(), MaskedPoly::zero()])
}

/// K masked zero polynomials.
pub fn zero_masked_vec_k() -> (v: MaskedVecK)
    ensures
        forall|j: int, c: int| 0 <= j < 6 && 0 <= c < 256 ==>
            #[trigger] v@[j].coeffs@[c] == (MaskedCoeff { share_0: 0, share_1: 0 }),
        forall|j: int| 0 <= j < 6 ==> #[trigger] v@[j].coeffs@.len() == 256,
{
    Box::new([MaskedPoly::zero(), MaskedPoly::zero(), MaskedPoly::zero(), MaskedPoly::zero(), MaskedPoly::zero(),
        MaskedPoly::zero()])
}

/// A copy of a vector of L masked polynomials.
pub fn clone_masked_vec_l(src: &MaskedVecL) -> (v: MaskedVecL)
    ensures
        v@ == src@,
{
    let r = Box::new([copy_poly(&src[0]), copy_poly(&src[1]), copy_poly(&src[2]), copy_poly(&src[3]),
        copy_poly(&src[4])]);
    assert(r@ =~= src@);
    r
}

/// A copy of a vector of K masked polynomials.
pub fn clone_masked_vec_k(src: &MaskedVecK) -> (v: MaskedVecK)
    ensures
        v@ == src@,
{
    let r = Box::new([copy_poly(&src[0]), copy_poly(&src[1]), copy_poly(&src[2]), copy_poly(&src[3]),
        copy_poly(&src[4]), copy_poly(&src[5])]);
    assert(r@ =~= src@);
    r
}


/// Share-wise accumulation of a row of public polynomials times a vector of
/// shares at coefficient c: the first n terms, each product taken with the
/// truncated remainder and each partial sum reduced into [0, q).
pub open spec fn macc(row: Seq<Seq<int>>, v: Seq<Seq<int>>, c: int, n: int) -> int
    decreases n,
{
    if n <= 0 { 0 } else { (macc(row, v, c, n - 1) + trem(row[n - 1][c] * v[n - 1][c])) % q() }
}

/// The accumulation is the dot product modulo q.
proof fn lemma_macc_dot(row: Seq<Seq<int>>, v: Seq<Seq<int>>, c: int, n: int)
    requires
        n >= 0,
    ensures
        macc(row, v, c, n) == dot_upto(row, v, c, n) % q(),
    decreases n,
{
    if n > 0 {
        lemma_macc_dot(row, v, c, n - 1);
        let d = dot_upto(row, v, c, n - 1);
        let p = row[n - 1][c] * v[n - 1][c];
        lemma_trem(p);
        lemma_add_mod(d, p);
        lemma_add_mod(d % q(), trem(p));
        vstd::arithmetic::div_mod::lemma_mod_twice(d, q());
    }
}

/// A dot product with a vector whose entries are congruent to a sum of two vectors.
proof fn lemma_dot_split(row: Seq<Seq<int>>, v0: Seq<Seq<int>>, v1: Seq<Seq<int>>, w: Seq<Seq<int>>, c: int, n: int)
    requires
        n >= 0,
        forall|j: int| 0 <= j < n ==> #[trigger] w[j][c] % q() == (v0[j][c] + v1[j][c]) % q(),
    ensures
        dot_upto(row, w, c, n) % q() == (dot_upto(row, v0, c, n) + dot_upto(row, v1, c, n)) % q(),
    decreases n,
{
    if n > 0 {
        lemma_dot_split(row, v0, v1, w, c, n - 1);
        let a = dot_upto(row, w, c, n - 1);
        let d0 = dot_upto(row, v0, c, n - 1);
        let d1 = dot_upto(row, v1, c, n - 1);
        let r = row[n - 1][c];
        let x = w[n - 1][c];
        let y = v0[n - 1][c] + v1[n - 1][c];
        lemma_add_mod(a, r * x);
        vstd::arithmetic::div_mod::lemma_mul_mod_noop_right(r, x, q());
        vstd::arithmetic::div_mod::lemma_mul_mod_noop_right(r, y, q());
        lemma_add_mod(d0 + d1, r * y);
        assert(d0 + d1 + r * y == (d0 + r * v0[n - 1][c]) + (d1 + r * v1[n - 1][c])) by (nonlinear_arith)
            requires y == v0[n - 1][c] + v1[n - 1][c];
    }
}

fn public_poly(p: &Poly) -> (r: MaskedPoly)
    ensures
        forall|c: int| 0 <= c < 256 ==> #[trigger] r.coeffs@[c] == (MaskedCoeff { share_0: p.coeffs@[c], share_1: 0 }),
        r.coeffs@.len() == 256,
{
    let mut r = MaskedPoly::zero();
    let mut k: usize = 0;
    while k < N
        invariant
            0 <= k <= 256,
            r.coeffs@.len() == 256,
            forall|c: int| 0 <= c < k ==> #[trigger] r.coeffs@[c] == (MaskedCoeff { share_0: p.coeffs@[c], share_1: 0 }),
        decreases 256 - k,
    {
        r.coeffs[k] = MaskedCoeff { share_0: p.coeffs[k], share_1: 0 };
        k += 1;
    }
    r
}

fn public_row(a: &[Poly; L]) -> (r: MaskedVecL)
    ensures
        forall|j: int, c: int| 0 <= j < 5 && 0 <= c < 256 ==>
            #[trigger] r@[j].coeffs@[c] == (MaskedCoeff { share_0: a@[j].coeffs@[c], share_1: 0 }),
        forall|j: int| 0 <= j < 5 ==> #[trigger] r@[j].coeffs@.len() == 256,
{
    Box::new([public_poly(&a[0]), public_poly(&a[1]), public_poly(&a[2]), public_poly(&a[3]), public_poly(&a[4])])
}

/// The sum over j < L of row[j] * v[j], share by share.
fn row_times(row: &MaskedVecL, v: &MaskedVecL) -> (r: MaskedPoly)
    ensures
        r.coeffs@.len() == 256,
        forall|c: int| 0 <= c < 256 ==> #[trigger] r.coeffs@[c].share_0 == macc(shares0_of(row@), shares0_of(v@), c, 5)
            && r.coeffs@[c].share_1 == macc(shares0_of(row@), shares1_of(v@), c, 5),
{
    let ghost pr = shares0_of(row@);
    let ghost v0 = shares0_of(v@);
    let ghost v1 = shares1_of(v@);
    let mut acc = MaskedPoly::zero();
    let mut j: usize = 0;
    while j < L
        invariant
            0 <= j <= 5,
            acc.coeffs@.len() == 256,
            pr == shares0_of(row@),
            v0 == shares0_of(v@),
            v1 == shares1_of(v@),
            forall|c: int| 0 <= c < 256 ==> #[trigger] acc.coeffs@[c].share_0 == macc(pr, v0, c, j as int),
            forall|c: int| 0 <= c < 256 ==> #[trigger] acc.coeffs@[c].share_1 == macc(pr, v1, c, j as int),
        decreases 5 - j,
    {
        let mut k: usize = 0;
        while k < N
            invariant
                0 <= j < 5,
                0 <= k <= 256,
                acc.coeffs@.len() == 256,
                pr == shares0_of(row@),
                v0 == shares0_of(v@),
                v1 == shares1_of(v@),
                forall|c: int| 0 <= c < k ==> #[trigger] acc.coeffs@[c].share_0 == macc(pr, v0, c, j + 1),
                forall|c: int| 0 <= c < k ==> #[trigger] acc.coeffs@[c].share_1 == macc(pr, v1, c, j + 1),
                forall|c: int| k <= c < 256 ==> #[trigger] acc.coeffs@[c].share_0 == macc(pr, v0, c, j as int),
                forall|c: int| k <= c < 256 ==> #[trigger] acc.coeffs@[c].share_1 == macc(pr, v1, c, j as int),
            decreases 256 - k,
        {
            let public_val = row[j].coeffs[k].share_0 as i64;
            let x0 = v[j].coeffs[k].share_0;
            let x1 = v[j].coeffs[k].share_1;
            proof {
                lemma_i32_product(row@[j as int].coeffs@[k as int].share_0, x0);
                lemma_i32_product(row@[j as int].coeffs@[k as int].share_0, x1);
            }
            let prod0 = (public_val * x0 as i64) % (Q as i64);
            let prod1 = (public_val * x1 as i64) % (Q as i64);
            let a = acc.coeffs[k];
            proof {
                let ci = k as int;
                lemma_trem(public_val * x0);
                lemma_trem(public_val * x1);
                assert(pr[j as int][ci] == public_val);
                assert(v0[j as int][ci] == x0);
                assert(v1[j as int][ci] == x1);
                assert(0 <= a.share_0 < q() && 0 <= a.share_1 < q()) by {
                    if j > 0 {
                        assert(macc(pr, v0, ci, j as int) == (macc(pr, v0, ci, j - 1) + trem(pr[j - 1][ci] * v0[j - 1][ci])) % q());
                        assert(macc(pr, v1, ci, j as int) == (macc(pr, v1, ci, j - 1) + trem(pr[j - 1][ci] * v1[j - 1][ci])) % q());
                    }
                }
            }
            let s0 = freeze(a.share_0 + prod0 as i32);
            let s1 = freeze(a.share_1 + prod1 as i32);
            acc.coeffs[k] = MaskedCoeff { share_0: s0, share_1: s1 };
            k += 1;
        }
        j += 1;
    }
    acc
}

/// The public matrix A, held as masked polynomials with a zero second share.
pub struct MaskedMatrix {
    pub rows: Box<[MaskedVecL; K]>,
}

impl MaskedMatrix {
    /// The first shares of the entries: the public matrix.
    pub open spec fn public_part(self) -> Seq<Seq<Seq<int>>> {
        Seq::new(6, |i: int| shares0_of(self.rows@[i]@))
    }

    /// Holds A[i][j] as the shares (A[i][j], 0).
    pub fn from_public(a: &[[Poly; L]; K]) -> (m: Self)
        ensures
            forall|i: int, j: int, c: int| 0 <= i < 6 && 0 <= j < 5 && 0 <= c < 256 ==>
                #[trigger] m.rows@[i]@[j].coeffs@[c] == (MaskedCoeff { share_0: a@[i]@[j].coeffs@[c], share_1: 0 }),
            m.public_part() == mv(a@),
    {
        let m = Self {
            rows: Box::new([public_row(&a[0]), public_row(&a[1]), public_row(&a[2]), public_row(&a[3]),
                public_row(&a[4]), public_row(&a[5])]),
        };
        proof {
            assert forall|i: int| 0 <= i < 6 implies #[trigger] m.public_part()[i] == mv(a@)[i] by {
                assert forall|j: int| 0 <= j < 5 implies #[trigger] m.public_part()[i][j] == mv(a@)[i][j] by {
                    assert(m.public_part()[i][j] =~= mv(a@)[i][j]);
                }
                assert(m.public_part()[i] =~= mv(a@)[i]);
            }
            assert(m.public_part() =~= mv(a@));
        }
        m
    }

    /// A * v share by share, with the first shares of the entries as the public
    /// factors; the values form the product of the public matrix and the values of v.
    pub fn mul_vec(&self, v: &MaskedVecL) -> (r: MaskedVecK)
        ensures
            forall|i: int, c: int| 0 <= i < 6 && 0 <= c < 256 ==>
                #[trigger] r@[i].coeffs@[c].share_0 == macc(self.public_part()[i], shares0_of(v@), c, 5)
                && r@[i].coeffs@[c].share_1 == macc(self.public_part()[i], shares1_of(v@), c, 5),
            values_of(r@) == matmul_spec(self.public_part(), values_of(v@)),
            forall|i: int| 0 <= i < 6 ==> #[trigger] r@[i].shares_reduced(),
    {
        let r = Box::new([row_times(&self.rows[0], v), row_times(&self.rows[1], v), row_times(&self.rows[2], v),
            row_times(&self.rows[3], v), row_times(&self.rows[4], v), row_times(&self.rows[5], v)]);
        proof {
            let pp = self.public_part();
            let vals = values_of(v@);
            assert forall|i: int| 0 <= i < 6 implies #[trigger] values_of(r@)[i] == matmul_spec(pp, vals)[i] by {
                assert forall|c: int| 0 <= c < 256 implies #[trigger] values_of(r@)[i][c] == matmul_spec(pp, vals)[i][c] by {
                    lemma_macc_dot(pp[i], shares0_of(v@), c, 5);
                    lemma_macc_dot(pp[i], shares1_of(v@), c, 5);
                    assert forall|j: int| 0 <= j < 5 implies #[trigger] vals[j][c] % q()
                        == (shares0_of(v@)[j][c] + shares1_of(v@)[j][c]) % q() by {
                        vstd::arithmetic::div_mod::lemma_mod_twice(shares0_of(v@)[j][c] + shares1_of(v@)[j][c], q());
                    }
                    lemma_dot_split(pp[i], shares0_of(v@), shares1_of(v@), vals, c, 5);
                    lemma_add_mod(dot_upto(pp[i], shares0_of(v@), c, 5), dot_upto(pp[i], shares1_of(v@), c, 5));
                }
                assert(values_of(r@)[i] =~= matmul_spec(pp, vals)[i]);
            }
            assert(values_of(r@) =~= matmul_spec(pp, vals));
            assert forall|i: int| 0 <= i < 6 implies #[trigger] r@[i].shares_reduced() by {
                assert forall|c: int| 0 <= c < 256 implies 0 <= #[trigger] r@[i].coeffs@[c].share_0 < q()
                    && 0 <= r@[i].coeffs@[c].share_1 < q() by {
                    let (x0, x1) = (shares0_of(v@), shares1_of(v@));
                    assert(macc(pp[i], x0, c, 5) == (macc(pp[i], x0, c, 4) + trem(pp[i][4][c] * x0[4][c])) % q());
                    assert(macc(pp[i], x1, c, 5) == (macc(pp[i], x1, c, 4) + trem(pp[i][4][c] * x1[4][c])) % q());
                }
            }
        }
        r
    }
}


/// p holds each of 0..n exactly once.
pub open spec fn is_permutation(p: Seq<usize>, n: int) -> bool {
    &&& p.len() == n
    &&& forall|i: int| 0 <= i < n ==> #[trigger] p[i] < n
    &&& forall|i: int, j: int| 0 <= i < n && 0 <= j < n && i != j ==> #[trigger] p[i] != #[trigger] p[j]
    &&& forall|v: int| 0 <= v < n ==> #[trigger] hits(p, v)
}

/// Some entry of p equals v.
pub open spec fn hits(p: Seq<usize>, v: int) -> bool {
    exists|i: int| 0 <= i < p.len() && #[trigger] p[i] == v
}

/// 0, 1, ..., n - 1.
pub open spec fn identity_perm(n: int) -> Seq<usize> {
    Seq::new(n as nat, |i: int| i as usize)
}

/// p with the entries at a and b exchanged.
pub open spec fn swapped(p: Seq<usize>, a: int, b: int) -> Seq<usize> {
    p.update(a, p[b]).update(b, p[a])
}

/// The Fisher-Yates shuffle from position i down to 1: position i is exchanged
/// with position draws[d] mod (i + 1), then i - 1 with draws[d + 1], and so on.
pub open spec fn fisher_yates(p: Seq<usize>, draws: Seq<u32>, i: int, d: int) -> Seq<usize>
    decreases i,
{
    if i <= 0 {
        p
    } else {
        fisher_yates(swapped(p, i, (draws[d] as int) % (i + 1)), draws, i - 1, d + 1)
    }
}

proof fn lemma_identity_perm(n: int)
    requires
        0 <= n <= usize::MAX,
    ensures
        is_permutation(identity_perm(n), n),
{
    let p = identity_perm(n);
    assert forall|v: int| 0 <= v < n implies #[trigger] hits(p, v) by {
        assert(p[v] == v);
    }
}

proof fn lemma_swap_perm(p: Seq<usize>, n: int, a: int, b: int)
    requires
        is_permutation(p, n),
        0 <= a < n,
        0 <= b < n,
    ensures
        is_permutation(swapped(p, a, b), n),
{
    let r = swapped(p, a, b);
    assert forall|i: int| 0 <= i < n implies #[trigger] r[i] == p[if i == b { a } else if i == a { b } else { i }] by {}
    assert forall|i: int, j: int| 0 <= i < n && 0 <= j < n && i != j implies #[trigger] r[i] != #[trigger] r[j] by {
        let ii = if i == b { a } else if i == a { b } else { i };
        let jj = if j == b { a } else if j == a { b } else { j };
        assert(r[i] == p[ii] && r[j] == p[jj]);
    }
    assert forall|v: int| 0 <= v < n implies #[trigger] hits(r, v) by {
        assert(hits(p, v));
        let w = choose|i: int| 0 <= i < p.len() && #[trigger] p[i] == v;
        let ww = if w == b { a } else if w == a { b } else { w };
        assert(r[ww] == p[w]);
    }
}

/// A Fisher-Yates shuffle of `size` entries taking draws from position start on.
fn shuffle_indices(size: usize, draws: &[u32], start: usize) -> (p: Vec<usize>)
    requires
        size >= 1,
        start + size - 1 <= draws@.len(),
    ensures
        is_permutation(p@, size as int),
        p@ == fisher_yates(identity_perm(size as int), draws@, size - 1, start as int),
{
    let mut p: Vec<usize> = Vec::new();
    let mut k: usize = 0;
    while k < size
        invariant
            0 <= k <= size,
            p@ == identity_perm(k as int),
        decreases size - k,
    {
        p.push(k);
        k += 1;
        assert(p@ =~= identity_perm(k as int));
    }
    proof {
        lemma_identity_perm(size as int);
    }
    let mut i: usize = size - 1;
    let mut d: usize = start;
    while i >= 1
        invariant
            0 <= i < size,
            d == start + (size - 1 - i),
            start + size - 1 <= draws@.len(),
            is_permutation(p@, size as int),
            fisher_yates(p@, draws@, i as int, d as int)
                == fisher_yates(identity_perm(size as int), draws@, size - 1, start as int),
        decreases i,
    {
        let j = (draws[d] as usize) % (i + 1);
        proof {
            lemma_swap_perm(p@, size as int, i as int, j as int);
        }
        let ghost before = p@;
        let a = p[i];
        let b = p[j];
        p.set(i, b);
        p.set(j, a);
        assert(p@ =~= swapped(before, i as int, j as int));
        i -= 1;
        d += 1;
    }
    p
}


/// The coefficient with shares (s0, s1) has a centred value of magnitude below `bound`.
pub open spec fn pair_ok(pr: (i32, i32), bound: int) -> bool {
    abs_spec(centered_spec(pr.0 + pr.1)) < bound
}

/// Position t of `shuffled` holds the shares that the permutation sends there.
pub open spec fn covered(perm: Seq<usize>, shuffled: Seq<(i32, i32)>, shares: Seq<(i32, i32)>, t: int) -> bool {
    exists|ii: int| 0 <= ii < shares.len() && #[trigger] perm[ii] == t && shuffled[t] == shares[ii]
}

/// The shares of all coefficients of `polys`, polynomial after polynomial.
fn collect_shares(polys: &[MaskedPoly]) -> (s: Vec<(i32, i32)>)
    requires
        polys@.len() <= 6,
        forall|j: int| 0 <= j < polys@.len() ==> #[trigger] polys@[j].coeffs@.len() == 256,
    ensures
        s@.len() == 256 * polys@.len(),
        forall|j: int, c: int| 0 <= j < polys@.len() && 0 <= c < 256 ==> #[trigger] s@[256 * j + c]
            == (polys@[j].coeffs@[c].share_0, polys@[j].coeffs@[c].share_1),
{
    let mut s: Vec<(i32, i32)> = Vec::new();
    let mut j: usize = 0;
    while j < polys.len()
        invariant
            0 <= j <= polys@.len() <= 6,
            s@.len() == 256 * j,
            forall|jj: int| 0 <= jj < polys@.len() ==> #[trigger] polys@[jj].coeffs@.len() == 256,
            forall|jj: int, c: int| 0 <= jj < j && 0 <= c < 256 ==> #[trigger] s@[256 * jj + c]
                == (polys@[jj].coeffs@[c].share_0, polys@[jj].coeffs@[c].share_1),
        decreases polys@.len() - j,
    {
        let mut c: usize = 0;
        while c < N
            invariant
                0 <= j < polys@.len() <= 6,
                0 <= c <= 256,
                s@.len() == 256 * j + c,
                polys@[j as int].coeffs@.len() == 256,
                forall|jj: int, cc: int| 0 <= jj < j && 0 <= cc < 256 ==> #[trigger] s@[256 * jj + cc]
                    == (polys@[jj].coeffs@[cc].share_0, polys@[jj].coeffs@[cc].share_1),
                forall|cc: int| 0 <= cc < c ==> #[trigger] s@[256 * j + cc]
                    == (polys@[j as int].coeffs@[cc].share_0, polys@[j as int].coeffs@[cc].share_1),
            decreases 256 - c,
        {
            let x = polys[j].coeffs[c];
            s.push((x.share_0, x.share_1));
            c += 1;
        }
        proof {
            assert forall|jj: int, cc: int| 0 <= jj < j + 1 && 0 <= cc < 256 implies #[trigger] s@[256 * jj + cc]
                == (polys@[jj].coeffs@[cc].share_0, polys@[jj].coeffs@[cc].share_1) by {
                if jj == j {
                    assert(s@[256 * j + cc] == (polys@[j as int].coeffs@[cc].share_0, polys@[j as int].coeffs@[cc].share_1));
                }
            }
        }
        j += 1;
    }
    s
}

/// Scatters the shares through the permutation, then checks every coefficient
/// in the scattered order: true when all of them are below `bound`.
fn check_shuffled(perm: &Vec<usize>, shares: &Vec<(i32, i32)>, bound: i32) -> (ok: bool)
    requires
        is_permutation(perm@, shares@.len() as int),
        forall|i: int| 0 <= i < shares@.len() ==> i32::MIN <= #[trigger] shares@[i].0 + shares@[i].1 <= i32::MAX,
    ensures
        ok == forall|i: int| 0 <= i < shares@.len() ==> #[trigger] pair_ok(shares@[i], bound as int),
{
    let total = shares.len();
    let mut shuffled: Vec<(i32, i32)> = Vec::new();
    let mut k: usize = 0;
    while k < total
        invariant
            0 <= k <= total,
            total == shares@.len(),
            shuffled@.len() == k,
            forall|t: int| 0 <= t < k ==> #[trigger] shuffled@[t] == (0i32, 0i32),
        decreases total - k,
    {
        shuffled.push((0i32, 0i32));
        k += 1;
    }
    let mut i: usize = 0;
    while i < total
        invariant
            0 <= i <= total,
            total == shares@.len(),
            shuffled@.len() == total,
            is_permutation(perm@, total as int),
            forall|ii: int| 0 <= ii < i ==> #[trigger] shuffled@[perm@[ii] as int] == shares@[ii],
            forall|t: int| 0 <= t < total ==> (#[trigger] shuffled@[t] == (0i32, 0i32)
                || exists|ii: int| 0 <= ii < i && perm@[ii] == t && shuffled@[t] == shares@[ii]),
        decreases total - i,
    {
        let ghost before = shuffled@;
        let target = perm[i];
        shuffled.set(target, shares[i]);
        proof {
            assert forall|ii: int| 0 <= ii < i + 1 implies #[trigger] shuffled@[perm@[ii] as int] == shares@[ii] by {
                if ii < i {
                    assert(perm@[ii] != perm@[i as int]);
                }
            }
            assert forall|t: int| 0 <= t < total implies (#[trigger] shuffled@[t] == (0i32, 0i32)
                || exists|ii: int| 0 <= ii < i + 1 && perm@[ii] == t && shuffled@[t] == shares@[ii]) by {
                if t == target as int {
                    assert(perm@[i as int] == t && shuffled@[t] == shares@[i as int]);
                } else {
                    assert(shuffled@[t] == before[t]);
                }
            }
        }
        i += 1;
    }
    proof {
        assert forall|t: int| 0 <= t < total implies #[trigger] covered(perm@, shuffled@, shares@, t) by {
            assert(hits(perm@, t));
            let w = choose|ii: int| 0 <= ii < perm@.len() && #[trigger] perm@[ii] == t;
            assert(shuffled@[perm@[w] as int] == shares@[w]);
        }
    }
    let mut t: usize = 0;
    while t < total
        invariant
            0 <= t <= total,
            total == shares@.len(),
            shuffled@.len() == total,
            is_permutation(perm@, total as int),
            forall|ii: int| 0 <= ii < total ==> #[trigger] shuffled@[perm@[ii] as int] == shares@[ii],
            forall|tt: int| 0 <= tt < total ==> #[trigger] covered(perm@, shuffled@, shares@, tt),
            forall|i: int| 0 <= i < shares@.len() ==> i32::MIN <= #[trigger] shares@[i].0 + shares@[i].1 <= i32::MAX,
            forall|tt: int| 0 <= tt < t ==> #[trigger] pair_ok(shuffled@[tt], bound as int),
        decreases total - t,
    {
        let (s0, s1) = shuffled[t];
        proof {
            assert(covered(perm@, shuffled@, shares@, t as int));
            let w = choose|ii: int| 0 <= ii < shares@.len() && #[trigger] perm@[ii] == t && shuffled@[t as int] == shares@[ii];
            assert(i32::MIN <= shares@[w].0 + shares@[w].1 <= i32::MAX);
        }
        let value = freeze(s0 + s1);
        let abs_val = if value > Q / 2 { Q - value } else { value };
        proof {
            assert(abs_val == abs_spec(centered_spec(s0 + s1)));
        }
        if abs_val >= bound {
            proof {
                assert(covered(perm@, shuffled@, shares@, t as int));
                let w = choose|ii: int| 0 <= ii < shares@.len() && #[trigger] perm@[ii] == t && shuffled@[t as int] == shares@[ii];
                assert(!pair_ok(shares@[w], bound as int));
            }
            return false;
        }
        t += 1;
    }
    proof {
        assert forall|i: int| 0 <= i < shares@.len() implies #[trigger] pair_ok(shares@[i], bound as int) by {
            assert(shuffled@[perm@[i] as int] == shares@[i]);
            assert(pair_ok(shuffled@[perm@[i] as int], bound as int));
        }
    }
    true
}

/// Random permutations of the coefficient positions of a vector of L and of a
/// vector of K polynomials; norm checks visit the coefficients in these orders.
pub struct SucreGadget {
    permutation_l: Vec<usize>,
    permutation_k: Vec<usize>,
}

impl SucreGadget {
    /// The order for vectors of L polynomials.
    pub closed spec fn perm_l(self) -> Seq<usize> {
        self.permutation_l@
    }

    /// The order for vectors of K polynomials.
    pub closed spec fn perm_k(self) -> Seq<usize> {
        self.permutation_k@
    }

    /// Both orders are permutations.
    pub open spec fn wf(self) -> bool {
        &&& is_permutation(self.perm_l(), 1280)
        &&& is_permutation(self.perm_k(), 1536)
    }

    /// Shuffles both orders with Fisher-Yates, taking the random words in turn:
    /// the first 1279 for the order of L polynomials, the next 1535 for K.
    pub fn new(draws: &[u32]) -> (g: Self)
        requires
            draws@.len() >= 2814,
        ensures
            g.wf(),
            g.perm_l() == fisher_yates(identity_perm(1280), draws@, 1279, 0),
            g.perm_k() == fisher_yates(identity_perm(1536), draws@, 1535, 1279),
    {
        let permutation_l = shuffle_indices(N * L, draws, 0);
        let permutation_k = shuffle_indices(N * K, draws, N * L - 1);
        Self { permutation_l, permutation_k }
    }

    /// True when every coefficient of the values of `vec` has a centred
    /// magnitude below `bound`; the coefficients are visited in shuffled order.
    pub fn check_norm_inf(&self, vec: &MaskedVecL, bound: i32) -> (ok: bool)
        requires
            self.wf(),
            forall|j: int| 0 <= j < 5 ==> #[trigger] vec@[j].shares_fit(),
            forall|j: int| 0 <= j < 5 ==> #[trigger] vec@[j].coeffs@.len() == 256,
        ensures
            ok == vnorm_below(values_of(vec@), bound as int),
    {
        let shares = collect_shares(vec.as_slice());
        proof {
            lemma_shares_fit(vec@, shares@);
        }
        let ok = check_shuffled(&self.permutation_l, &shares, bound);
        proof {
            lemma_pairs_norm(vec@, shares@, bound as int);
        }
        ok
    }

    /// As check_norm_inf, for a vector of K polynomials.
    pub fn check_norm_inf_k(&self, vec: &MaskedVecK, bound: i32) -> (ok: bool)
        requires
            self.wf(),
            forall|j: int| 0 <= j < 6 ==> #[trigger] vec@[j].shares_fit(),
            forall|j: int| 0 <= j < 6 ==> #[trigger] vec@[j].coeffs@.len() == 256,
        ensures
            ok == vnorm_below(values_of(vec@), bound as int),
    {
        let shares = collect_shares(vec.as_slice());
        proof {
            lemma_shares_fit(vec@, shares@);
        }
        let ok = check_shuffled(&self.permutation_k, &shares, bound);
        proof {
            lemma_pairs_norm(vec@, shares@, bound as int);
        }
        ok
    }
}

proof fn lemma_shares_fit(v: Seq<MaskedPoly>, s: Seq<(i32, i32)>)
    requires
        forall|j: int| 0 <= j < v.len() ==> #[trigger] v[j].shares_fit(),
        s.len() == 256 * v.len(),
        forall|j: int, c: int| 0 <= j < v.len() && 0 <= c < 256 ==> #[trigger] s[256 * j + c]
            == (v[j].coeffs@[c].share_0, v[j].coeffs@[c].share_1),
    ensures
        forall|i: int| 0 <= i < s.len() ==> i32::MIN <= #[trigger] s[i].0 + s[i].1 <= i32::MAX,
{
    assert forall|i: int| 0 <= i < s.len() implies i32::MIN <= #[trigger] s[i].0 + s[i].1 <= i32::MAX by {
        lemma_block_index(i, 256);
        let j = i / 256;
        let c = i % 256;
        assert(j < v.len()) by (nonlinear_arith)
            requires i == 256 * j + c, 0 <= c < 256, i < 256 * v.len();
        assert(s[256 * j + c] == (v[j].coeffs@[c].share_0, v[j].coeffs@[c].share_1));
        assert(v[j].shares_fit());
    }
}

proof fn lemma_pairs_norm(v: Seq<MaskedPoly>, s: Seq<(i32, i32)>, bound: int)
    requires
        s.len() == 256 * v.len(),
        forall|j: int, c: int| 0 <= j < v.len() && 0 <= c < 256 ==> #[trigger] s[256 * j + c]
            == (v[j].coeffs@[c].share_0, v[j].coeffs@[c].share_1),
    ensures
        (forall|i: int| 0 <= i < s.len() ==> #[trigger] pair_ok(s[i], bound))
            == vnorm_below(values_of(v), bound),
{
    let vals = values_of(v);
    assert forall|j: int, c: int| 0 <= j < v.len() && 0 <= c < 256 implies
        #[trigger] abs_spec(centered_spec(vals[j][c])) == abs_spec(centered_spec(s[256 * j + c].0 + s[256 * j + c].1)) by {
        vstd::arithmetic::div_mod::lemma_mod_twice(v[j].coeffs@[c].share_0 + v[j].coeffs@[c].share_1, q());
    }
    if forall|i: int| 0 <= i < s.len() ==> #[trigger] pair_ok(s[i], bound) {
        assert forall|j: int| 0 <= j < vals.len() implies #[trigger] norm_below(vals[j], bound) by {
            assert forall|c: int| 0 <= c < 256 implies #[trigger] abs_spec(centered_spec(vals[j][c])) < bound by {
                assert(pair_ok(s[256 * j + c], bound));
            }
        }
    }
    if vnorm_below(vals, bound) {
        assert forall|i: int| 0 <= i < s.len() implies #[trigger] pair_ok(s[i], bound) by {
            lemma_block_index(i, 256);
            let j = i / 256;
            let c = i % 256;
            assert(j < v.len()) by (nonlinear_arith)
                requires i == 256 * j + c, 0 <= c < 256, i < 256 * v.len();
            assert(norm_below(vals[j], bound));
            assert(abs_spec(centered_spec(vals[j][c])) < bound);
        }
    }
}


/// Shares in [0, q) are valid inputs of both transforms.
proof fn lemma_reduced_shares_ok(p: MaskedPoly)
    requires
        p.shares_reduced(),
    ensures
        ntt_input_ok(p.share0()),
        ntt_input_ok(p.share1()),
        invntt_input_ok(p.share0()),
        invntt_input_ok(p.share1()),
        p.shares_fit(),
{
    assert forall|i: int| 0 <= i < 256 implies 0 <= #[trigger] p.share1()[i] < q() by {
        assert(0 <= p.coeffs@[i].share_0 < q());
    }
    lemma_ntt_input_small(p.share0());
    lemma_ntt_input_small(p.share1());
    lemma_invntt_input_small(p.share0());
    lemma_invntt_input_small(p.share1());
}

/// Shares of magnitude below q are valid inverse NTT inputs.
proof fn lemma_small_shares_invntt_ok(p: MaskedPoly)
    requires
        forall|i: int| 0 <= i < 256 ==> -q() < #[trigger] p.coeffs@[i].share_0 < q()
            && -q() < p.coeffs@[i].share_1 < q(),
    ensures
        invntt_input_ok(p.share0()),
        invntt_input_ok(p.share1()),
{
    assert forall|i: int| 0 <= i < 256 implies -q() < #[trigger] p.share1()[i] < q() by {
        assert(-q() < p.coeffs@[i].share_0 < q());
    }
    lemma_invntt_input_small(p.share0());
    lemma_invntt_input_small(p.share1());
}

fn ntt_of(p: &MaskedPoly) -> (r: MaskedPoly)
    requires
        p.ntt_ready(),
    ensures
        r.value() == ntt_spec(p.value()),
        r.shares_reduced(),
        r.coeffs@.len() == 256,
{
    let mut r = copy_poly(p);
    r.ntt();
    r
}

fn invntt_of(p: &MaskedPoly) -> (r: MaskedPoly)
    requires
        invntt_input_ok(p.share0()),
        invntt_input_ok(p.share1()),
    ensures
        r.value() == invntt_spec(p.value()),
        r.shares_reduced(),
        r.coeffs@.len() == 256,
{
    let mut r = copy_poly(p);
    r.invntt();
    r
}

/// NTT^-1(c * p) share by share, for p in the NTT domain with shares in [0, q).
fn times_public(p: &MaskedPoly, c: &Poly) -> (r: MaskedPoly)
    requires
        p.shares_reduced(),
        all_reduced(c.coeffs@),
    ensures
        r.value() == invntt_spec(pointwise_spec(c@, p.value())),
        r.shares_reduced(),
        r.coeffs@.len() == 256,
{
    let m = p.mul_public(c);
    proof {
        assert forall|i: int| 0 <= i < 256 implies -q() < #[trigger] m.coeffs@[i].share_0 < q()
            && -q() < m.coeffs@[i].share_1 < q() by {
            lemma_trem(p.coeffs@[i].share_0 * c.coeffs@[i]);
            lemma_trem(p.coeffs@[i].share_1 * c.coeffs@[i]);
        }
        lemma_small_shares_invntt_ok(m);
        lemma_pointwise_comm(p.value(), c@);
    }
    invntt_of(&m)
}

proof fn lemma_pointwise_comm(a: Seq<int>, b: Seq<int>)
    ensures
        pointwise_spec(a, b) == pointwise_spec(b, a),
{
    assert forall|i: int| 0 <= i < 256 implies #[trigger] pointwise_spec(a, b)[i] == pointwise_spec(b, a)[i] by {
        assert(a[i] * b[i] == b[i] * a[i]) by (nonlinear_arith);
    }
    assert(pointwise_spec(a, b) =~= pointwise_spec(b, a));
}

/// Reducing a sequence of residues in [0, q) changes nothing.
proof fn lemma_reduce_noop(x: Seq<int>)
    requires
        x.len() == 256,
        forall|i: int| 0 <= i < 256 ==> 0 <= #[trigger] x[i] < q(),
    ensures
        reduce_spec(x) == x,
{
    assert forall|i: int| 0 <= i < 256 implies #[trigger] reduce_spec(x)[i] == x[i] by {
        vstd::arithmetic::div_mod::lemma_small_mod(x[i] as nat, q() as nat);
    }
    assert(reduce_spec(x) =~= x);
}

/// The value of a masked polynomial is a sequence of residues in [0, q).
proof fn lemma_value_reduced(p: MaskedPoly)
    ensures
        reduce_spec(p.value()) == p.value(),
{
    lemma_reduce_noop(p.value());
}

/// Adding a reduced first operand is adding the operand itself.
proof fn lemma_add_reduce_left(a: Seq<int>, b: Seq<int>)
    ensures
        add_spec(reduce_spec(a), b) == add_spec(a, b),
{
    assert forall|i: int| 0 <= i < 256 implies #[trigger] add_spec(reduce_spec(a), b)[i] == add_spec(a, b)[i] by {
        vstd::arithmetic::div_mod::lemma_add_mod_noop(a[i], b[i], q());
        vstd::arithmetic::div_mod::lemma_add_mod_noop(a[i] % q(), b[i], q());
        vstd::arithmetic::div_mod::lemma_mod_twice(a[i], q());
    }
    assert(add_spec(reduce_spec(a), b) =~= add_spec(a, b));
}

/// Reconstructs a masked polynomial and reduces it, as a plain polynomial.
fn reconstruct_reduced(p: &MaskedPoly) -> (r: Poly)
    requires
        p.shares_fit(),
    ensures
        r@ == p.value(),
        all_reduced(r.coeffs@),
{
    let mut rec = p.secure_reconstruct();
    let poly = rec.get_mut();
    poly.reduce();
    let r = rec.consume();
    proof {
        lemma_value_reduced(*p);
    }
    r
}


/// The number of random words one signing attempt uses: 256 for each of the
/// five polynomials of y, then 2814 for the order of the norm check on z.
pub const ATTEMPT_WORDS: usize = 4094;

/// The n words of `draws` from offset `off` on.
fn words_from(draws: &[u32], off: usize, n: usize) -> (v: Vec<u32>)
    requires
        off + n <= draws@.len(),
    ensures
        v@ == draws@.subrange(off as int, off + n),
{
    let mut v: Vec<u32> = Vec::new();
    let dl = draws.len();
    let mut i: usize = 0;
    while i < n
        invariant
            0 <= i <= n,
            dl == draws@.len(),
            off + n <= draws@.len(),
            v@ == draws@.subrange(off as int, off + i),
        decreases n - i,
    {
        v.push(draws[off + i]);
        i += 1;
        assert(v@ =~= draws@.subrange(off as int, off + i));
    }
    v
}

/// Masks each polynomial of y with 256 words of `draws`, in order.
fn mask_vec_l_with(y: &[Poly; L], draws: &[u32]) -> (v: MaskedVecL)
    requires
        draws@.len() >= 1280,
        forall|i: int, c: int| 0 <= i < 5 && 0 <= c < 256 ==> -524288 < #[trigger] y@[i]@[c] <= 524288,
    ensures
        values_of(v@) == vreduce(pv(y@)),
        forall|i: int| 0 <= i < 5 ==> #[trigger] v@[i].shares_reduced() && v@[i].coeffs@.len() == 256,
{
    proof {
        assert forall|i: int, c: int| 0 <= i < 5 && 0 <= c < 256 implies i32::MIN + q() <= #[trigger] y@[i]@[c] by {}
    }
    let m0 = mask_with(&y[0], draws, 0);
    let m1 = mask_with(&y[1], draws, 256);
    let m2 = mask_with(&y[2], draws, 512);
    let m3 = mask_with(&y[3], draws, 768);
    let m4 = mask_with(&y[4], draws, 1024);
    let v: MaskedVecL = Box::new([m0, m1, m2, m3, m4]);
    assert(values_of(v@) =~= vreduce(pv(y@)));
    v
}

/// Forward NTT of every polynomial, share by share.
fn ntt_vec_l(v: &MaskedVecL) -> (r: MaskedVecL)
    requires
        forall|i: int| 0 <= i < 5 ==> #[trigger] v@[i].ntt_ready(),
    ensures
        values_of(r@) == vntt(values_of(v@)),
        forall|i: int| 0 <= i < 5 ==> #[trigger] r@[i].shares_reduced() && r@[i].coeffs@.len() == 256,
{
    let r: MaskedVecL = Box::new([ntt_of(&v[0]), ntt_of(&v[1]), ntt_of(&v[2]), ntt_of(&v[3]), ntt_of(&v[4])]);
    assert(values_of(r@) =~= vntt(values_of(v@)));
    r
}

/// Forward NTT of every polynomial, share by share.
fn ntt_vec_k(v: &MaskedVecK) -> (r: MaskedVecK)
    requires
        forall|i: int| 0 <= i < 6 ==> #[trigger] v@[i].ntt_ready(),
    ensures
        values_of(r@) == vntt(values_of(v@)),
        forall|i: int| 0 <= i < 6 ==> #[trigger] r@[i].shares_reduced() && r@[i].coeffs@.len() == 256,
{
    let r: MaskedVecK = Box::new([ntt_of(&v[0]), ntt_of(&v[1]), ntt_of(&v[2]), ntt_of(&v[3]), ntt_of(&v[4]),
        ntt_of(&v[5])]);
    assert(values_of(r@) =~= vntt(values_of(v@)));
    r
}

/// Inverse NTT of every polynomial, share by share.
fn invntt_vec_k(v: &MaskedVecK) -> (r: MaskedVecK)
    requires
        forall|i: int| 0 <= i < 6 ==> #[trigger] v@[i].shares_reduced(),
    ensures
        values_of(r@) == vinvntt(values_of(v@)),
        forall|i: int| 0 <= i < 6 ==> #[trigger] r@[i].shares_reduced() && r@[i].coeffs@.len() == 256,
{
    proof {
        assert forall|i: int| 0 <= i < 6 implies #[trigger] invntt_input_ok(v@[i].share0()) by {
            lemma_reduced_shares_ok(v@[i]);
        }
        assert forall|i: int| 0 <= i < 6 implies #[trigger] invntt_input_ok(v@[i].share1()) by {
            lemma_reduced_shares_ok(v@[i]);
        }
    }
    let r: MaskedVecK = Box::new([invntt_of(&v[0]), invntt_of(&v[1]), invntt_of(&v[2]), invntt_of(&v[3]),
        invntt_of(&v[4]), invntt_of(&v[5])]);
    assert(values_of(r@) =~= vinvntt(values_of(v@)));
    r
}

/// NTT^-1(c * v[i]) for every polynomial of v, share by share.
fn times_public_vec_l(v: &MaskedVecL, c: &Poly) -> (r: MaskedVecL)
    requires
        forall|i: int| 0 <= i < 5 ==> #[trigger] v@[i].shares_reduced(),
        all_reduced(c.coeffs@),
    ensures
        values_of(r@) == vinvntt(cmul(c@, values_of(v@))),
        forall|i: int| 0 <= i < 5 ==> #[trigger] r@[i].shares_reduced() && r@[i].coeffs@.len() == 256,
{
    let r: MaskedVecL = Box::new([times_public(&v[0], c), times_public(&v[1], c), times_public(&v[2], c),
        times_public(&v[3], c), times_public(&v[4], c)]);
    assert(values_of(r@) =~= vinvntt(cmul(c@, values_of(v@))));
    r
}

/// NTT^-1(c * v[i]) for every polynomial of v, share by share.
fn times_public_vec_k(v: &MaskedVecK, c: &Poly) -> (r: MaskedVecK)
    requires
        forall|i: int| 0 <= i < 6 ==> #[trigger] v@[i].shares_reduced(),
        all_reduced(c.coeffs@),
    ensures
        values_of(r@) == vinvntt(cmul(c@, values_of(v@))),
        forall|i: int| 0 <= i < 6 ==> #[trigger] r@[i].shares_reduced() && r@[i].coeffs@.len() == 256,
{
    let r: MaskedVecK = Box::new([times_public(&v[0], c), times_public(&v[1], c), times_public(&v[2], c),
        times_public(&v[3], c), times_public(&v[4], c), times_public(&v[5], c)]);
    assert(values_of(r@) =~= vinvntt(cmul(c@, values_of(v@))));
    r
}

proof fn lemma_reduced_sum_fits(a: MaskedPoly, b: MaskedPoly)
    requires
        a.shares_reduced(),
        b.shares_reduced(),
    ensures
        forall|i: int| 0 <= i < 256 ==> #[trigger] a.coeffs@[i].sum_fits(b.coeffs@[i]),
        forall|i: int| 0 <= i < 256 ==> #[trigger] a.coeffs@[i].diff_fits(b.coeffs@[i]),
{
    assert forall|i: int| 0 <= i < 256 implies #[trigger] a.coeffs@[i].sum_fits(b.coeffs@[i])
        && a.coeffs@[i].diff_fits(b.coeffs@[i]) by {
        assert(0 <= a.coeffs@[i].share_0 < q() && 0 <= b.coeffs@[i].share_0 < q());
    }
}

/// Share-wise sum of two vectors.
fn add_vec_l(a: &MaskedVecL, b: &MaskedVecL) -> (r: MaskedVecL)
    requires
        forall|i: int| 0 <= i < 5 ==> #[trigger] a@[i].shares_reduced(),
        forall|i: int| 0 <= i < 5 ==> #[trigger] b@[i].shares_reduced(),
    ensures
        values_of(r@) == vadd(values_of(a@), values_of(b@)),
        forall|i: int| 0 <= i < 5 ==> #[trigger] r@[i].shares_reduced() && r@[i].coeffs@.len() == 256,
{
    proof {
        assert forall|i: int, c: int| 0 <= i < 5 && 0 <= c < 256 implies
            #[trigger] a@[i].coeffs@[c].sum_fits(b@[i].coeffs@[c]) by {
            lemma_reduced_sum_fits(a@[i], b@[i]);
        }
    }
    let r: MaskedVecL = Box::new([a[0].add(&b[0]), a[1].add(&b[1]), a[2].add(&b[2]), a[3].add(&b[3]), a[4].add(&b[4])]);
    proof {
        assert forall|i: int| 0 <= i < 5 implies #[trigger] r@[i].coeffs@.len() == 256 by {
            assert(r@[i].coeffs@.len() == 256);
        }
    }
    assert(values_of(r@) =~= vadd(values_of(a@), values_of(b@)));
    r
}

/// Share-wise difference of two vectors.
fn sub_vec_k(a: &MaskedVecK, b: &MaskedVecK) -> (r: MaskedVecK)
    requires
        forall|i: int| 0 <= i < 6 ==> #[trigger] a@[i].shares_reduced(),
        forall|i: int| 0 <= i < 6 ==> #[trigger] b@[i].shares_reduced(),
    ensures
        values_of(r@) == vsub(values_of(a@), values_of(b@)),
        forall|i: int| 0 <= i < 6 ==> #[trigger] r@[i].shares_reduced(),
{
    proof {
        assert forall|i: int, c: int| 0 <= i < 6 && 0 <= c < 256 implies
            #[trigger] a@[i].coeffs@[c].diff_fits(b@[i].coeffs@[c]) by {
            lemma_reduced_sum_fits(a@[i], b@[i]);
        }
    }
    let r: MaskedVecK = Box::new([a[0].sub(&b[0]), a[1].sub(&b[1]), a[2].sub(&b[2]), a[3].sub(&b[3]), a[4].sub(&b[4]),
        a[5].sub(&b[5])]);
    assert(values_of(r@) =~= vsub(values_of(a@), values_of(b@)));
    r
}

/// The reconstructed, reduced polynomials of a vector of L.
fn reconstruct_vec_l(v: &MaskedVecL) -> (r: [Poly; L])
    requires
        forall|i: int| 0 <= i < 5 ==> #[trigger] v@[i].shares_reduced(),
    ensures
        pv(r@) == values_of(v@),
        vec_reduced(r@),
{
    proof {
        assert forall|i: int| 0 <= i < 5 implies #[trigger] v@[i].shares_fit() by {
            lemma_reduced_shares_ok(v@[i]);
        }
    }
    let r = [reconstruct_reduced(&v[0]), reconstruct_reduced(&v[1]), reconstruct_reduced(&v[2]),
        reconstruct_reduced(&v[3]), reconstruct_reduced(&v[4])];
    assert(pv(r@) =~= values_of(v@));
    r
}

/// The reconstructed, reduced polynomials of a vector of K.
fn reconstruct_vec_k(v: &MaskedVecK) -> (r: [Poly; K])
    requires
        forall|i: int| 0 <= i < 6 ==> #[trigger] v@[i].shares_reduced(),
    ensures
        pv(r@) == values_of(v@),
        vec_reduced(r@),
{
    proof {
        assert forall|i: int| 0 <= i < 6 implies #[trigger] v@[i].shares_fit() by {
            lemma_reduced_shares_ok(v@[i]);
        }
    }
    let r = [reconstruct_reduced(&v[0]), reconstruct_reduced(&v[1]), reconstruct_reduced(&v[2]),
        reconstruct_reduced(&v[3]), reconstruct_reduced(&v[4]), reconstruct_reduced(&v[5])];
    assert(pv(r@) =~= values_of(v@));
    r
}


/// A secret key whose polynomials s1, s2 and t0 are masked.
pub struct MaskedSecretKey {
    pub rho: [u8; SEEDBYTES],
    pub tr: [u8; TRBYTES],
    pub k: [u8; KEYBYTES],
    pub s1: MaskedVecL,
    pub s2: MaskedVecK,
    pub t0: MaskedVecK,
}

impl MaskedSecretKey {
    /// Every masked polynomial of the key is a valid NTT input, share by share.
    pub open spec fn ntt_ready(self) -> bool {
        &&& forall|i: int| 0 <= i < 5 ==> #[trigger] self.s1@[i].ntt_ready()
        &&& forall|i: int| 0 <= i < 6 ==> #[trigger] self.s2@[i].ntt_ready()
        &&& forall|i: int| 0 <= i < 6 ==> #[trigger] self.t0@[i].ntt_ready()
    }

    /// Every share of the key lies in [0, q).
    pub open spec fn shares_reduced(self) -> bool {
        &&& forall|i: int| 0 <= i < 5 ==> #[trigger] self.s1@[i].shares_reduced()
        &&& forall|i: int| 0 <= i < 6 ==> #[trigger] self.s2@[i].shares_reduced()
        &&& forall|i: int| 0 <= i < 6 ==> #[trigger] self.t0@[i].shares_reduced()
    }

    /// Sign_internal with this key on the formatted message M' and the 32 random
    /// bytes rnd, the key's polynomials taken by their values.
    pub open spec fn sign_spec(self, msg_prime: Seq<u8>, rnd: Seq<u8>) -> Option<Seq<u8>> {
        let mu = message_digest(self.tr@, msg_prime);
        loop_with(self.rho@, values_of(self.s1@), values_of(self.s2@), values_of(self.t0@), mu,
            private_seed(self.k@, rnd, mu), 0)
    }

    /// Decodes an encoded secret key and masks s1, s2 and t0 with the random
    /// words `draws`, 256 per polynomial and in this order: s1[0..L], then s2[i]
    /// followed by t0[i] for each i < K.
    pub fn from_plain(sk: &[u8; SECRETKEYBYTES], draws: &[u32]) -> (r: Result<Self, MlDsaError>)
        requires
            draws@.len() >= 4352,
        ensures
            r matches Ok(key) && {
                &&& key.rho@ == sk_rho(sk@)
                &&& key.k@ == sk_key(sk@)
                &&& key.tr@ == sk_tr(sk@)
                &&& values_of(key.s1@) == vreduce(sk_s1(sk@))
                &&& values_of(key.s2@) == vreduce(sk_s2(sk@))
                &&& values_of(key.t0@) == vreduce(sk_t0(sk@))
                &&& key.shares_reduced()
                &&& forall|i: int, c: int| 0 <= i < 5 && 0 <= c < 256 ==>
                    #[trigger] key.s1@[i].coeffs@[c].share_0 == (draws@[256 * i + c] as int) % q()
                &&& forall|i: int, c: int| 0 <= i < 6 && 0 <= c < 256 ==>
                    #[trigger] key.s2@[i].coeffs@[c].share_0 == (draws@[1280 + 512 * i + c] as int) % q()
                &&& forall|i: int, c: int| 0 <= i < 6 && 0 <= c < 256 ==>
                    #[trigger] key.t0@[i].coeffs@[c].share_0 == (draws@[1536 + 512 * i + c] as int) % q()
            },
    {
        let rho = take32(sk, 0);
        let k = take32(sk, 32);
        let tr = take64(sk, 64);
        let s1p = unpack_s1(sk, 128);
        let s2p = unpack_s2(sk, 768);
        let t0p = unpack_t0(sk, 1536);
        let s1: MaskedVecL = Box::new([mask_with(&s1p[0], draws, 0), mask_with(&s1p[1], draws, 256),
            mask_with(&s1p[2], draws, 512), mask_with(&s1p[3], draws, 768), mask_with(&s1p[4], draws, 1024)]);
        let s2: MaskedVecK = Box::new([mask_with(&s2p[0], draws, 1280), mask_with(&s2p[1], draws, 1792),
            mask_with(&s2p[2], draws, 2304), mask_with(&s2p[3], draws, 2816), mask_with(&s2p[4], draws, 3328),
            mask_with(&s2p[5], draws, 3840)]);
        let t0: MaskedVecK = Box::new([mask_with(&t0p[0], draws, 1536), mask_with(&t0p[1], draws, 2048),
            mask_with(&t0p[2], draws, 2560), mask_with(&t0p[3], draws, 3072), mask_with(&t0p[4], draws, 3584),
            mask_with(&t0p[5], draws, 4096)]);
        let key = Self { rho, tr, k, s1, s2, t0 };
        assert(values_of(key.s1@) =~= vreduce(sk_s1(sk@)));
        assert(values_of(key.s2@) =~= vreduce(sk_s2(sk@)));
        assert(values_of(key.t0@) =~= vreduce(sk_t0(sk@)));
        Ok(key)
    }

    /// Overwrites every share and every byte of the key with zero.
    pub fn zeroize(&mut self)
        ensures
            final(self).rho@ == Seq::new(32, |i: int| 0u8),
            final(self).tr@ == Seq::new(64, |i: int| 0u8),
            final(self).k@ == Seq::new(32, |i: int| 0u8),
            forall|i: int, c: int| 0 <= i < 5 && 0 <= c < 256 ==>
                #[trigger] final(self).s1@[i].coeffs@[c] == (MaskedCoeff { share_0: 0, share_1: 0 }),
            forall|i: int, c: int| 0 <= i < 6 && 0 <= c < 256 ==>
                #[trigger] final(self).s2@[i].coeffs@[c] == (MaskedCoeff { share_0: 0, share_1: 0 }),
            forall|i: int, c: int| 0 <= i < 6 && 0 <= c < 256 ==>
                #[trigger] final(self).t0@[i].coeffs@[c] == (MaskedCoeff { share_0: 0, share_1: 0 }),
    {
        self.s1 = zero_masked_vec_l();
        self.s2 = zero_masked_vec_k();
        self.t0 = zero_masked_vec_k();
        self.rho = [0u8; 32];
        self.tr = [0u8; 64];
        self.k = [0u8; 32];
        assert(self.rho@ =~= Seq::new(32, |i: int| 0u8));
        assert(self.tr@ =~= Seq::new(64, |i: int| 0u8));
        assert(self.k@ =~= Seq::new(32, |i: int| 0u8));
        crate::polynomial::compiler_fence_seqcst();
    }
}

/// Masks `p` with the 256 random words of `draws` from offset `off` on.
fn mask_with(p: &Poly, draws: &[u32], off: usize) -> (r: MaskedPoly)
    requires
        off + 256 <= draws@.len(),
        forall|c: int| 0 <= c < 256 ==> i32::MIN + q() <= #[trigger] p@[c],
    ensures
        forall|c: int| 0 <= c < 256 ==> #[trigger] r.coeffs@[c].share_0 == (draws@[off + c] as int) % q(),
        r.value() == reduce_spec(p@),
        r.shares_reduced(),
{
    let dl = draws.len();
    let mut chunk: Vec<u32> = Vec::new();
    let mut c: usize = 0;
    while c < N
        invariant
            0 <= c <= 256,
            dl == draws@.len(),
            off + 256 <= draws@.len(),
            chunk@.len() == c,
            forall|j: int| 0 <= j < c ==> #[trigger] chunk@[j] == draws@[off + j],
        decreases 256 - c,
    {
        chunk.push(draws[off + c]);
        c += 1;
    }
    proof {
        assert forall|i: int| 0 <= i < 256 implies i32::MIN <= #[trigger] p.coeffs@[i] - (chunk@[i] as int) % q() by {
            assert(p@[i] == p.coeffs@[i] as int);
        }
    }
    MaskedPoly::new(p, chunk.as_slice())
}


/// One attempt of the rejection loop with counter kappa, on masked shares of
/// y, s1, s2 and t0: the commitment w, the response z, w - c*s2 and c*t0 are
/// computed share by share and reconstructed only for the checks and the
/// encoding. The random words `draws` mask y (256 per polynomial) and then
/// order the norm check on z (the remaining 2814). The signature of the
/// attempt, or None when it is rejected.
pub fn masked_attempt(a_masked: &MaskedMatrix, s1_hat: &MaskedVecL, s2_hat: &MaskedVecK, t0_hat: &MaskedVecK,
    mu: &[u8; 64], rho_pp: &[u8; 64], kappa: u16, draws: &[u32], Ghost(rho): Ghost<Seq<u8>>,
    Ghost(s1): Ghost<Seq<Seq<int>>>, Ghost(s2): Ghost<Seq<Seq<int>>>, Ghost(t0): Ghost<Seq<Seq<int>>>)
    -> (r: Option<[u8; SIGNBYTES]>)
    requires
        kappa <= 65530,
        draws@.len() >= ATTEMPT_WORDS,
        a_masked.public_part() == expand_a_spec(rho),
        values_of(s1_hat@) == vntt(s1),
        values_of(s2_hat@) == vntt(s2),
        values_of(t0_hat@) == vntt(t0),
        forall|i: int| 0 <= i < 5 ==> #[trigger] s1_hat@[i].shares_reduced(),
        forall|i: int| 0 <= i < 6 ==> #[trigger] s2_hat@[i].shares_reduced(),
        forall|i: int| 0 <= i < 6 ==> #[trigger] t0_hat@[i].shares_reduced(),
    ensures
        match attempt_with(rho, s1, s2, t0, mu@, rho_pp@, kappa as int) {
            Some(sig) => r matches Some(s) && s@ == sig,
            None => r is None,
        },
{
    proof {
        reveal(attempt_with);
    }
    let y = mask_vector(rho_pp, kappa);
    let ghost ys = mask_spec(rho_pp@, kappa as int);
    let y_masked = mask_vec_l_with(&y, draws);
    proof {
        assert forall|i: int| 0 <= i < 5 implies #[trigger] y_masked@[i].ntt_ready() by {
            lemma_reduced_shares_ok(y_masked@[i]);
        }
    }
    let y_hat = ntt_vec_l(&y_masked);
    proof {
        assert forall|i: int| 0 <= i < 5 implies #[trigger] values_of(y_hat@)[i] == vntt(ys)[i] by {
            lemma_ntt_of_reduced(ys[i]);
        }
        assert(values_of(y_hat@) =~= vntt(ys));
    }
    let w_ntt = a_masked.mul_vec(&y_hat);
    let w_masked = invntt_vec_k(&w_ntt);
    let w = reconstruct_vec_k(&w_masked);
    let ghost ws = commitment(expand_a_spec(rho), ys);
    proof {
        let x = vinvntt(matmul_spec(expand_a_spec(rho), vntt(ys)));
        assert forall|i: int| 0 <= i < 6 implies #[trigger] vreduce(x)[i] == x[i] by {
            lemma_reduce_noop(x[i]);
        }
        assert(vreduce(x) =~= x);
        assert(pv(w@) == ws);
    }
    let c_tilde = challenge_seed(&w, mu);
    let mut c_hat = sample_in_ball(&c_tilde);
    proof {
        lemma_small_ntt_ok(c_hat, 1);
    }
    c_hat.ntt();
    let cs1 = times_public_vec_l(s1_hat, &c_hat);
    let z_masked = add_vec_l(&y_masked, &cs1);
    let ghost zs = response_z(ys, c_hat@, vntt(s1));
    proof {
        let x = vinvntt(cmul(c_hat@, vntt(s1)));
        assert forall|i: int| 0 <= i < 5 implies #[trigger] values_of(z_masked@)[i] == zs[i] by {
            lemma_add_reduce_left(ys[i], x[i]);
        }
        assert(values_of(z_masked@) =~= zs);
    }
    let order_words = words_from(draws, 1280, 2814);
    let sucre = SucreGadget::new(order_words.as_slice());
    proof {
        assert forall|i: int| 0 <= i < 5 implies #[trigger] z_masked@[i].shares_fit() by {
            lemma_reduced_shares_ok(z_masked@[i]);
        }
    }
    if !sucre.check_norm_inf(&z_masked, 524288 - 196) {
        return None;
    }
    let cs2 = times_public_vec_k(s2_hat, &c_hat);
    let wm_masked = sub_vec_k(&w_masked, &cs2);
    let wm = reconstruct_vec_k(&wm_masked);
    let ghost wms = response_wm(ws, c_hat@, vntt(s2));
    assert(pv(wm@) == wms);
    let ct0_masked = times_public_vec_k(t0_hat, &c_hat);
    let ct0 = reconstruct_vec_k(&ct0_masked);
    let ghost ct0s = response_ct0(c_hat@, vntt(t0));
    proof {
        let x = vinvntt(cmul(c_hat@, vntt(t0)));
        assert forall|i: int| 0 <= i < 6 implies #[trigger] vreduce(x)[i] == x[i] by {
            lemma_reduce_noop(x[i]);
        }
        assert(vreduce(x) =~= x);
        assert(pv(ct0@) == ct0s);
    }
    match finish_attempt(&wm, &ct0) {
        None => None,
        Some(hb) => {
            let z = reconstruct_vec_l(&z_masked);
            let zc = vecl_centered(&z);
            let zb = pack_z(&zc);
            let mut sig = [0u8; SIGNBYTES];
            write_bytes(&mut sig, 0, &c_tilde);
            write_bytes(&mut sig, 48, &zb);
            write_bytes(&mut sig, 3248, &hb);
            assert(sig@ =~= c_tilde@ + zb@ + hb@);
            Some(sig)
        },
    }
}

/// Sign_internal with a masked secret key on M' = 0 || 0 || msg and the 32
/// bytes rnd: the secret polynomials are only ever handled as shares,
/// refreshed in every attempt with the words `draw` gives for its counter
/// kappa, which also order the norm check on z. When every call of `draw`
/// succeeds, the signature of the key's values, or `RejectionLimitReached`
/// when no attempt is accepted; an error of `draw` is passed on.
pub fn masked_sign_internal<F: Fn(u16) -> Result<Vec<u32>, MlDsaError>>(masked_sk: &MaskedSecretKey, msg: &[u8],
    rnd: &[u8; 32], draw: F) -> (r: Result<[u8; SIGNBYTES], MlDsaError>)
    requires
        masked_sk.ntt_ready(),
        forall|k: u16| #[trigger] draw.requires((k,)),
        forall|k: u16, d: Result<Vec<u32>, MlDsaError>| #[trigger] draw.ensures((k,), d) ==>
            (d matches Ok(v) ==> v@.len() == ATTEMPT_WORDS),
    ensures
        (forall|k: u16, d: Result<Vec<u32>, MlDsaError>| #[trigger] draw.ensures((k,), d) ==> d is Ok) ==>
            match masked_sk.sign_spec(formatted_message(msg@), rnd@) {
                Some(sig) => r matches Ok(s) && s@ == sig,
                None => r == Err::<[u8; SIGNBYTES], MlDsaError>(MlDsaError::RejectionLimitReached),
            },
        r matches Ok(s) ==> masked_sk.sign_spec(formatted_message(msg@), rnd@) == Some(s@),
        r matches Err(e) ==> (e == MlDsaError::RejectionLimitReached
            && masked_sk.sign_spec(formatted_message(msg@), rnd@) is None)
            || exists|k: u16| #[trigger] draw.ensures((k,), Err::<Vec<u32>, MlDsaError>(e)),
{
    let mp = format_message(msg);
    let mut mu = [0u8; 64];
    shake256_2(&mut mu, &masked_sk.tr, mp.as_slice());
    let a = expand_a(&masked_sk.rho);
    let a_masked = MaskedMatrix::from_public(&a);
    let s1_hat = ntt_vec_l(&masked_sk.s1);
    let s2_hat = ntt_vec_k(&masked_sk.s2);
    let t0_hat = ntt_vec_k(&masked_sk.t0);
    let mut rho_pp = [0u8; 64];
    shake256_3(&mut rho_pp, &masked_sk.k, rnd, &mu);
    let ghost rho = masked_sk.rho@;
    let ghost s1 = values_of(masked_sk.s1@);
    let ghost s2 = values_of(masked_sk.s2@);
    let ghost t0 = values_of(masked_sk.t0@);
    let ghost fm = formatted_message(msg@);
    let mut kappa: u16 = 0;
    loop
        invariant
            kappa <= 65535,
            kappa % 5 == 0,
            rnd@.len() == 32,
            rho == masked_sk.rho@,
            s1 == values_of(masked_sk.s1@),
            s2 == values_of(masked_sk.s2@),
            t0 == values_of(masked_sk.t0@),
            fm == formatted_message(msg@),
            loop_with(rho, s1, s2, t0, mu@, rho_pp@, kappa as int) == masked_sk.sign_spec(fm, rnd@),
            a_masked.public_part() == expand_a_spec(rho),
            values_of(s1_hat@) == vntt(s1),
            values_of(s2_hat@) == vntt(s2),
            values_of(t0_hat@) == vntt(t0),
            forall|i: int| 0 <= i < 5 ==> #[trigger] s1_hat@[i].shares_reduced(),
            forall|i: int| 0 <= i < 6 ==> #[trigger] s2_hat@[i].shares_reduced(),
            forall|i: int| 0 <= i < 6 ==> #[trigger] t0_hat@[i].shares_reduced(),
            forall|k: u16| #[trigger] draw.requires((k,)),
            forall|k: u16, d: Result<Vec<u32>, MlDsaError>| #[trigger] draw.ensures((k,), d) ==>
                (d matches Ok(v) ==> v@.len() == ATTEMPT_WORDS),
        decreases 65535 - kappa,
    {
        if kappa > 65530 {
            assert(masked_sk.sign_spec(fm, rnd@) is None);
            return Err(MlDsaError::RejectionLimitReached);
        }
        let words = match draw(kappa) {
            Err(e) => {
                assert(draw.ensures((kappa,), Err::<Vec<u32>, MlDsaError>(e)));
                return Err(e);
            },
            Ok(v) => v,
        };
        match masked_attempt(&a_masked, &s1_hat, &s2_hat, &t0_hat, &mu, &rho_pp, kappa, words.as_slice(),
            Ghost(rho), Ghost(s1), Ghost(s2), Ghost(t0)) {
            Some(sig) => {
                assert(masked_sk.sign_spec(fm, rnd@) == Some(sig@));
                return Ok(sig);
            },
            None => {
                kappa = kappa + 5;
            },
        }
    }
}

/// Signs `msg` (with an empty context) with a masked secret key, the 32 random
/// bytes rnd and the masks of every attempt coming from the operating system:
/// the signature is the one that Sign_internal gives for the values of the key
/// and some rnd; `RngFailed` when the operating system gives no random bytes,
/// and `RejectionLimitReached` when no attempt is accepted.
pub fn masked_sign(masked_sk: &MaskedSecretKey, msg: &[u8]) -> (r: Result<[u8; SIGNBYTES], MlDsaError>)
    requires
        masked_sk.ntt_ready(),
    ensures
        r matches Ok(sig) ==> exists|rnd: Seq<u8>| rnd.len() == 32
            && #[trigger] masked_sk.sign_spec(formatted_message(msg@), rnd) == Some(sig@),
        r matches Err(e) ==> e == MlDsaError::RngFailed || (e == MlDsaError::RejectionLimitReached
            && exists|rnd: Seq<u8>| rnd.len() == 32
                && #[trigger] masked_sk.sign_spec(formatted_message(msg@), rnd) is None),
{
    let mut rnd = [0u8; 32];
    match random_bytes(&mut rnd) {
        Err(e) => {
            return Err(e);
        },
        Ok(()) => {},
    }
    let draw = |kappa: u16| -> (d: Result<Vec<u32>, MlDsaError>)
        ensures
            d matches Ok(v) ==> v@.len() == ATTEMPT_WORDS,
            d is Err ==> d == Err::<Vec<u32>, MlDsaError>(MlDsaError::RngFailed),
    {
        random_words(ATTEMPT_WORDS)
    };
    let r = masked_sign_internal(masked_sk, msg, &rnd, draw);
    proof {
        if r is Err {
            if r != Err::<[u8; SIGNBYTES], MlDsaError>(MlDsaError::RejectionLimitReached) {
                let k = choose|k: u16| #[trigger] draw.ensures((k,), Err::<Vec<u32>, MlDsaError>(r->Err_0));
            }
        }
    }
    r
}

/// Masked signing agrees with unmasked signing: for a masked key whose bytes
/// are those of the encoded key sk and whose polynomials have the values of
/// s1, s2 and t0 modulo q (as `from_plain` gives), Sign_internal gives the same
/// result on the same M' and rnd.
pub proof fn lemma_masked_sign_matches(key: MaskedSecretKey, sk: Seq<u8>, msg_prime: Seq<u8>, rnd: Seq<u8>)
    requires
        key.rho@ == sk_rho(sk),
        key.k@ == sk_key(sk),
        key.tr@ == sk_tr(sk),
        values_of(key.s1@) == vreduce(sk_s1(sk)),
        values_of(key.s2@) == vreduce(sk_s2(sk)),
        values_of(key.t0@) == vreduce(sk_t0(sk)),
    ensures
        key.sign_spec(msg_prime, rnd) == sign_spec(sk, msg_prime, rnd),
{
    let mu = message_digest(sk_tr(sk), msg_prime);
    lemma_loop_reduced(sk, mu, private_seed(sk_key(sk), rnd, mu), 0);
}

/// Masked signatures verify: a masked key holding a secret key from key
/// generation (as `from_plain` builds it) signs so that verification under the
/// matching public key accepts, for the same message M'.
pub proof fn lemma_masked_sign_then_verify(key: MaskedSecretKey, xi: Seq<u8>, msg_prime: Seq<u8>, rnd: Seq<u8>,
    sig: Seq<u8>)
    requires
        crate::mldsa_spec::keygen_expansion(xi).len() == 128,
        crate::polynomial::shake256_output(crate::mldsa_spec::keygen_pk(xi), 64).len() == 64,
        key.rho@ == sk_rho(crate::mldsa_spec::keygen_sk(xi)),
        key.k@ == sk_key(crate::mldsa_spec::keygen_sk(xi)),
        key.tr@ == sk_tr(crate::mldsa_spec::keygen_sk(xi)),
        values_of(key.s1@) == vreduce(sk_s1(crate::mldsa_spec::keygen_sk(xi))),
        values_of(key.s2@) == vreduce(sk_s2(crate::mldsa_spec::keygen_sk(xi))),
        values_of(key.t0@) == vreduce(sk_t0(crate::mldsa_spec::keygen_sk(xi))),
        key.sign_spec(msg_prime, rnd) == Some(sig),
        sig.len() == 3309,
    ensures
        crate::mldsa_spec::verify_spec(crate::mldsa_spec::keygen_pk(xi), msg_prime, sig) == Some(true),
{
    lemma_masked_sign_matches(key, crate::mldsa_spec::keygen_sk(xi), msg_prime, rnd);
    crate::mldsa_spec::lemma_sign_then_verify(xi, msg_prime, rnd, sig);
}

proof fn lemma_vntt_reduced(v: Seq<Seq<int>>)
    ensures
        vntt(vreduce(v)) == vntt(v),
{
    assert forall|i: int| 0 <= i < v.len() implies #[trigger] vntt(vreduce(v))[i] == vntt(v)[i] by {
        lemma_ntt_of_reduced(v[i]);
    }
    assert(vntt(vreduce(v)) =~= vntt(v));
}

proof fn lemma_loop_reduced(sk: Seq<u8>, mu: Seq<u8>, rho_pp: Seq<u8>, kappa: int)
    ensures
        loop_with(sk_rho(sk), vreduce(sk_s1(sk)), vreduce(sk_s2(sk)), vreduce(sk_t0(sk)), mu, rho_pp, kappa)
            == sign_loop(sk, mu, rho_pp, kappa),
    decreases 65536 - kappa,
{
    lemma_vntt_reduced(sk_s1(sk));
    lemma_vntt_reduced(sk_s2(sk));
    lemma_vntt_reduced(sk_t0(sk));
    assert(attempt_with(sk_rho(sk), vreduce(sk_s1(sk)), vreduce(sk_s2(sk)), vreduce(sk_t0(sk)), mu, rho_pp, kappa)
        == sign_attempt(sk, mu, rho_pp, kappa)) by {
        reveal(attempt_with);
    }
    if 0 <= kappa <= 65530 {
        lemma_loop_reduced(sk, mu, rho_pp, kappa + 5);
    }
}

} // verus!
