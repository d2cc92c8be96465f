//! Encoding of the hint vector h (FIPS 204, Algorithms 20 and 21).

use vstd::prelude::*;
use crate::constants::{K, N, OMEGA};
use crate::polynomial::Poly;
use crate::mldsa_spec::{pv, hint_positions, hint_bytes, hint_total, hint_decode, lemma_block_index};

verus! {

/// Positions (within their polynomial) of the nonzero coefficients among the
/// first t coefficients of h, polynomial after polynomial.
pub open spec fn nonzero_positions(h: Seq<Poly>, t: int) -> Seq<int>
    decreases t,
{
    if t <= 0 {
        Seq::empty()
    } else {
        let prev = nonzero_positions(h, t - 1);
        let i = (t - 1) / 256;
        let j = (t - 1) % 256;
        if h[i].coeffs@[j] != 0 { prev.push(j) } else { prev }
    }
}

/// Number of nonzero coefficients in the polynomials 0..=i of h.
pub open spec fn hints_through(h: Seq<Poly>, i: int) -> int {
    nonzero_positions(h, 256 * (i + 1)).len() as int
}

/// Number of nonzero coefficients of h.
pub open spec fn hint_count(h: Seq<Poly>) -> int {
    nonzero_positions(h, 1536).len() as int
}

proof fn lemma_positions_prefix(h: Seq<Poly>, t: int, t2: int)
    requires
        0 <= t <= t2,
    ensures
        nonzero_positions(h, t).len() <= nonzero_positions(h, t2).len(),
        nonzero_positions(h, t2).len() <= t2,
        forall|k: int| 0 <= k < nonzero_positions(h, t).len() ==>
            #[trigger] nonzero_positions(h, t)[k] == nonzero_positions(h, t2)[k],
    decreases t2,
{
    if t2 > 0 {
        if t < t2 {
            lemma_positions_prefix(h, t, t2 - 1);
        } else {
            lemma_positions_prefix(h, 0, t2 - 1);
        }
    }
}

/// The positions of the nonzero coefficients agree with those of the
/// coefficient sequences of h.
proof fn lemma_positions_agree(h: Seq<Poly>, t: int)
    requires
        h.len() == 6,
        0 <= t <= 1536,
    ensures
        nonzero_positions(h, t) == hint_positions(pv(h), t),
        forall|k: int| 0 <= k < nonzero_positions(h, t).len() ==> 0 <= #[trigger] nonzero_positions(h, t)[k] < 256,
    decreases t,
{
    if t > 0 {
        lemma_positions_agree(h, t - 1);
        lemma_block_index(t - 1, 256);
        let i = (t - 1) / 256;
        let j = (t - 1) % 256;
        assert(pv(h)[i][j] == h[i].coeffs@[j] as int);
    }
}

/// The bytes written by a successful HintBitPack are those of `hint_bytes`.
proof fn lemma_hint_pack_bytes(h: Seq<Poly>, buf: Seq<u8>)
    requires
        h.len() == 6,
        buf.len() == 61,
        hint_count(h) <= 55,
        forall|k: int| 0 <= k < 55 && k < nonzero_positions(h, 1536).len() ==>
            #[trigger] buf[k] as int == nonzero_positions(h, 1536)[k],
        forall|k: int| hint_count(h) <= k < 55 ==> #[trigger] buf[k] == 0,
        forall|i: int| 0 <= i < 6 && hints_through(h, i) <= 55 ==>
            #[trigger] buf[55 + i] as int == hints_through(h, i),
    ensures
        buf == hint_bytes(pv(h)),
{
    lemma_positions_agree(h, 1536);
    assert forall|k: int| 0 <= k < 61 implies #[trigger] buf[k] == hint_bytes(pv(h))[k] by {
        if k >= 55 {
            let i = k - 55;
            lemma_positions_agree(h, 256 * (i + 1));
            lemma_positions_prefix(h, 256 * (i + 1), 1536);
            assert(buf[55 + i] as int == hints_through(h, i));
        }
    }
    assert(buf =~= hint_bytes(pv(h)));
}

/// HintBitPack (Algorithm 20). With n nonzero coefficients, n <= OMEGA: returns
/// Some(n), buf[0..n] holds their positions in order, buf[n..OMEGA] is zero and
/// buf[OMEGA + i] is the number of nonzero coefficients in h[0..=i]. With more
/// than OMEGA: returns None, buf[0..OMEGA] holds the first OMEGA positions and
/// buf[OMEGA + i] the count through h[i] for those i whose count is at most OMEGA;
/// the other count bytes are unchanged.
pub fn hint_pack(h: &[Poly; K], buf: &mut [u8; 61]) -> (r: Option<usize>)
    ensures
        r is Some <==> hint_count(h@) <= 55,
        r matches Some(n) ==> n == hint_count(h@),
        forall|k: int| 0 <= k < 55 && k < nonzero_positions(h@, 1536).len() ==>
            #[trigger] final(buf)@[k] as int == nonzero_positions(h@, 1536)[k],
        r is Some ==> forall|k: int| hint_count(h@) <= k < 55 ==> #[trigger] final(buf)@[k] == 0,
        forall|i: int| 0 <= i < 6 && hints_through(h@, i) <= 55 ==>
            #[trigger] final(buf)@[55 + i] as int == hints_through(h@, i),
        forall|i: int| 0 <= i < 6 && hints_through(h@, i) > 55 ==>
            #[trigger] final(buf)@[55 + i] == old(buf)@[55 + i],
        r is Some <==> hint_total(pv(h@)) <= 55,
        r is Some ==> final(buf)@ == hint_bytes(pv(h@)),
{
    proof {
        lemma_positions_agree(h@, 1536);
    }
    let ghost hs = h@;
    let ghost old_buf = buf@;
    let mut index: usize = 0;
    let mut i: usize = 0;
    while i < K
        invariant
            0 <= i <= 6,
            hs == h@,
            hs.len() == 6,
            buf@.len() == 61,
            old_buf.len() == 61,
            old_buf == old(buf)@,
            index == nonzero_positions(hs, 256 * i).len(),
            index <= 55,
            forall|k: int| 0 <= k < index ==> #[trigger] buf@[k] as int == nonzero_positions(hs, 256 * i)[k],
            forall|ii: int| 0 <= ii < i ==> #[trigger] buf@[55 + ii] as int == hints_through(hs, ii),
            forall|ii: int| i <= ii < 6 ==> #[trigger] buf@[55 + ii] == old_buf[55 + ii],
        decreases 6 - i,
    {
        let mut j: usize = 0;
        while j < N
            invariant
                0 <= i < 6,
                0 <= j <= 256,
                hs == h@,
                hs.len() == 6,
                buf@.len() == 61,
                old_buf.len() == 61,
            old_buf == old(buf)@,
                old_buf == old(buf)@,
                index == nonzero_positions(hs, 256 * i + j).len(),
                index <= 55,
                forall|k: int| 0 <= k < index ==> #[trigger] buf@[k] as int
                    == nonzero_positions(hs, 256 * i + j)[k],
                forall|ii: int| 0 <= ii < i ==> #[trigger] buf@[55 + ii] as int == hints_through(hs, ii),
                forall|ii: int| i <= ii < 6 ==> #[trigger] buf@[55 + ii] == old_buf[55 + ii],
            decreases 256 - j,
        {
            proof {
                let t = 256 * i + j;
                assert((t + 1 - 1) / 256 == i as int);
                assert((t + 1 - 1) % 256 == j as int);
            }
            if h[i].coeffs[j] != 0 {
                if index >= OMEGA {
                    proof {
                        let t = 256 * i + j;
                        lemma_positions_prefix(hs, t + 1, 1536);
                        assert(hint_count(hs) > 55);
                        lemma_positions_agree(hs, 1536);
                        assert forall|ii: int| 0 <= ii < 6 && hints_through(hs, ii) <= 55
                            implies ii < i by {
                            if ii >= i {
                                lemma_positions_prefix(hs, t + 1, 256 * (ii + 1));
                            }
                        }
                        assert forall|ii: int| 0 <= ii < 6 && hints_through(hs, ii) > 55
                            implies ii >= i by {
                            if ii < i {
                                lemma_positions_prefix(hs, 256 * (ii + 1), t);
                            }
                        }
                        assert forall|k: int| 0 <= k < 55 && k < nonzero_positions(hs, 1536).len()
                            implies #[trigger] buf@[k] as int == nonzero_positions(hs, 1536)[k] by {
                            lemma_positions_prefix(hs, t, 1536);
                        }
                        assert forall|ii: int| 0 <= ii < 6 && hints_through(h@, ii) > 55
                            implies #[trigger] buf@[55 + ii] == old_buf[55 + ii] by {
                            assert(ii >= i);
                        }
                    }
                    return None;
                }
                buf[index] = j as u8;
                index += 1;
            }
            j += 1;
        }
        buf[OMEGA + i] = index as u8;
        proof {
            assert(256 * (i + 1) == 256 * i + 256);
        }
        i += 1;
    }
    let ghost filled = buf@;
    let mut idx: usize = index;
    while idx < OMEGA
        invariant
            index <= idx <= 55,
            buf@.len() == 61,
            forall|k: int| 0 <= k < 61 && !(index <= k < idx) ==> #[trigger] buf@[k] == filled[k],
            forall|k: int| index <= k < idx ==> #[trigger] buf@[k] == 0,
        decreases 55 - idx,
    {
        buf[idx] = 0;
        idx += 1;
    }
    proof {
        assert(256 * 6 == 1536);
        assert forall|ii: int| 0 <= ii < 6 implies hints_through(hs, ii) <= 55 by {
            lemma_positions_prefix(hs, 256 * (ii + 1), 1536);
        }
        lemma_hint_pack_bytes(hs, buf@);
    }
    Some(index)
}

} // verus!

verus! {

/// Start, in the encoding b, of the positions of polynomial i.
pub open spec fn hint_start(b: Seq<u8>, i: int) -> int {
    if i <= 0 { 0 } else { b[55 + i - 1] as int }
}

/// End (exclusive), in the encoding b, of the positions of polynomial i.
pub open spec fn hint_end(b: Seq<u8>, i: int) -> int {
    b[55 + i] as int
}

/// The positions listed for polynomial i strictly increase.
pub open spec fn hint_segment_increasing(b: Seq<u8>, i: int) -> bool {
    forall|k: int| hint_start(b, i) < k < hint_end(b, i) ==> #[trigger] b[k - 1] < b[k]
}

/// A well-formed hint encoding: the cumulative counts never decrease and stay
/// at most OMEGA, positions of each polynomial strictly increase, and the unused
/// position bytes are zero.
pub open spec fn hint_encoding_valid(b: Seq<u8>) -> bool {
    &&& forall|i: int| 0 <= i < 6 ==> hint_start(b, i) <= #[trigger] hint_end(b, i) <= 55
    &&& forall|i: int| 0 <= i < 6 ==> #[trigger] hint_segment_increasing(b, i)
    &&& forall|k: int| hint_end(b, 5) <= k < 55 ==> #[trigger] b[k] == 0
}

/// Whether the encoding b lists position j for polynomial i.
pub open spec fn hint_listed(b: Seq<u8>, i: int, j: int) -> bool {
    exists|k: int| hint_start(b, i) <= k < hint_end(b, i) && #[trigger] b[k] as int == j
}

/// HintBitUnpack (Algorithm 21). Returns None exactly when the encoding is not
/// well formed; otherwise h[i][j] is 1 when position j is listed for polynomial i
/// and 0 elsewhere.
pub fn hint_unpack(buf: &[u8; 61]) -> (r: Option<[Poly; K]>)
    ensures
        r is Some <==> hint_encoding_valid(buf@),
        r matches Some(h) ==> forall|i: int, j: int| 0 <= i < 6 && 0 <= j < 256 ==>
            #[trigger] h@[i]@[j] == (if hint_listed(buf@, i, j) { 1int } else { 0int }),
{
    let z = Poly::zero();
    let mut h: [Poly; K] = [z, z, z, z, z, z];
    let mut index: usize = 0;
    let mut i: usize = 0;
    while i < K
        invariant
            0 <= i <= 6,
            buf@.len() == 61,
            h@.len() == 6,
            index == hint_start(buf@, i as int),
            forall|ii: int| 0 <= ii < i ==> hint_start(buf@, ii) <= #[trigger] hint_end(buf@, ii) <= 55,
            forall|ii: int| 0 <= ii < i ==> #[trigger] hint_segment_increasing(buf@, ii),
            forall|ii: int, j: int| 0 <= ii < i && 0 <= j < 256 ==>
                #[trigger] h@[ii]@[j] == (if hint_listed(buf@, ii, j) { 1int } else { 0int }),
        decreases 6 - i,
    {
        let end = buf[OMEGA + i] as usize;
        if end < index || end > OMEGA {
            proof {
                assert(!(hint_start(buf@, i as int) <= hint_end(buf@, i as int) <= 55));
            }
            return None;
        }
        let first = index;
        let mut poly = Poly::zero();
        while index < end
            invariant
                0 <= i < 6,
                buf@.len() == 61,
                h@.len() == 6,
                first == hint_start(buf@, i as int),
                end == hint_end(buf@, i as int),
                first <= index <= end <= 55,
                poly.coeffs@.len() == 256,
                forall|k: int| first < k < index ==> #[trigger] buf@[k - 1] < buf@[k],
                forall|j: int| 0 <= j < 256 ==> #[trigger] poly.coeffs@[j] as int == (if exists|k: int|
                    first <= k < index && #[trigger] buf@[k] as int == j { 1int } else { 0int }),
            decreases end - index,
        {
            if index > first && buf[index - 1] >= buf[index] {
                proof {
                    assert(!hint_encoding_valid(buf@)) by {
                        let kk = index as int;
                        assert(hint_start(buf@, i as int) < kk < hint_end(buf@, i as int));
                        assert(!(buf@[kk - 1] < buf@[kk]));
                        assert(!hint_segment_increasing(buf@, i as int));
                    }
                }
                return None;
            }
            let pos = buf[index] as usize;
            let ghost prevp = poly.coeffs@;
            poly.coeffs[pos] = 1;
            proof {
                assert forall|j: int| 0 <= j < 256 implies #[trigger] poly.coeffs@[j] as int == (if exists|k: int|
                    first <= k < index + 1 && #[trigger] buf@[k] as int == j { 1int } else { 0int }) by {
                    if j == pos as int {
                        assert(buf@[index as int] as int == j);
                    } else {
                        assert(poly.coeffs@[j] == prevp[j]);
                        if exists|k: int| first <= k < index + 1 && #[trigger] buf@[k] as int == j {
                            let k = choose|k: int| first <= k < index + 1 && #[trigger] buf@[k] as int == j;
                            assert(k != index as int);
                        }
                    }
                }
            }
            index += 1;
        }
        h[i] = poly;
        proof {
            assert(hint_segment_increasing(buf@, i as int));
            assert forall|j: int| 0 <= j < 256 implies #[trigger] h@[i as int]@[j]
                == (if hint_listed(buf@, i as int, j) { 1int } else { 0int }) by {
                assert(h@[i as int] == poly);
                assert(poly@[j] == poly.coeffs@[j] as int);
            }
        }
        i += 1;
    }
    proof {
        assert(hint_start(buf@, 5) <= hint_end(buf@, 5) <= 55);
        assert(index == hint_end(buf@, 5));
    }
    let mut k: usize = index;
    while k < OMEGA
        invariant
            index <= k <= 55,
            buf@.len() == 61,
            index == hint_start(buf@, 6),
            forall|kk: int| index <= kk < k ==> #[trigger] buf@[kk] == 0,
        decreases 55 - k,
    {
        if buf[k] != 0 {
            return None;
        }
        k += 1;
    }
    Some(h)
}

} // verus!

verus! {

/// Coefficient u (counting through the polynomials in order) of h.
pub open spec fn hint_at(h: Seq<Seq<int>>, u: int) -> int {
    h[u / 256][u % 256]
}

/// Number of nonzero coefficients among the first t coefficients of h.
pub open spec fn hint_count_upto(h: Seq<Seq<int>>, t: int) -> int {
    hint_positions(h, t).len() as int
}

proof fn lemma_hp_step(h: Seq<Seq<int>>, t: int)
    requires
        t >= 1,
    ensures
        hint_positions(h, t) == if hint_at(h, t - 1) != 0 {
            hint_positions(h, t - 1).push((t - 1) % 256)
        } else {
            hint_positions(h, t - 1)
        },
{
}

/// Listed positions lie in [0, 256).
proof fn lemma_hp_range(h: Seq<Seq<int>>, t: int)
    ensures
        forall|k: int| 0 <= k < hint_count_upto(h, t) ==> 0 <= #[trigger] hint_positions(h, t)[k] < 256,
    decreases t,
{
    if t > 0 {
        lemma_hp_range(h, t - 1);
        lemma_hp_step(h, t);
    }
}

/// Counts only grow, and a shorter prefix lists the first positions of a longer one.
proof fn lemma_hp_prefix(h: Seq<Seq<int>>, t: int, t2: int)
    requires
        0 <= t <= t2,
    ensures
        hint_count_upto(h, t) <= hint_count_upto(h, t2),
        forall|k: int| 0 <= k < hint_count_upto(h, t) ==> #[trigger] hint_positions(h, t)[k] == hint_positions(h, t2)[k],
    decreases t2,
{
    if t < t2 {
        lemma_hp_prefix(h, t, t2 - 1);
        lemma_hp_step(h, t2);
    }
}

/// A nonzero coefficient u is listed at index count(u), with its position u mod 256.
proof fn lemma_hp_listed(h: Seq<Seq<int>>, u: int, t: int)
    requires
        0 <= u < t,
        hint_at(h, u) != 0,
    ensures
        hint_count_upto(h, u) < hint_count_upto(h, t),
        hint_positions(h, t)[hint_count_upto(h, u)] == u % 256,
{
    lemma_hp_step(h, u + 1);
    lemma_hp_prefix(h, u + 1, t);
    assert(hint_positions(h, u + 1)[hint_count_upto(h, u)] == u % 256);
}

/// Every listed entry comes from a nonzero coefficient.
proof fn lemma_hp_source(h: Seq<Seq<int>>, k: int, t: int)
    requires
        t >= 0,
        0 <= k < hint_count_upto(h, t),
    ensures
        exists|u: int| 0 <= u < t && #[trigger] hint_at(h, u) != 0 && hint_count_upto(h, u) == k,
    decreases t,
{
    lemma_hp_step(h, t);
    if k < hint_count_upto(h, t - 1) {
        lemma_hp_source(h, k, t - 1);
        let u = choose|u: int| 0 <= u < t - 1 && #[trigger] hint_at(h, u) != 0 && hint_count_upto(h, u) == k;
        assert(0 <= u < t && hint_at(h, u) != 0 && hint_count_upto(h, u) == k);
    } else {
        assert(hint_at(h, t - 1) != 0 && hint_count_upto(h, t - 1) == k);
    }
}

/// A nonzero coefficient whose index falls between the counts at two
/// boundaries lies between the boundaries.
proof fn lemma_hp_between(h: Seq<Seq<int>>, u: int, lo: int, hi: int)
    requires
        0 <= u,
        0 <= lo <= hi,
        hint_at(h, u) != 0,
        hint_count_upto(h, lo) <= hint_count_upto(h, u) < hint_count_upto(h, hi),
    ensures
        lo <= u < hi,
{
    if u < lo {
        lemma_hp_listed(h, u, lo);
        lemma_hp_step(h, u + 1);
        lemma_hp_prefix(h, u + 1, lo);
    }
    if u >= hi {
        lemma_hp_prefix(h, hi, u);
    }
}

/// The counts through each polynomial, as HintBitPack writes them.
proof fn lemma_hint_bounds(h: Seq<Seq<int>>, i: int)
    requires
        0 <= i < 6,
        hint_total(h) <= 55,
    ensures
        hint_start(hint_bytes(h), i) == hint_count_upto(h, 256 * i),
        hint_end(hint_bytes(h), i) == hint_count_upto(h, 256 * (i + 1)),
        hint_count_upto(h, 256 * i) <= hint_count_upto(h, 256 * (i + 1)) <= 55,
{
    let b = hint_bytes(h);
    lemma_hp_prefix(h, 256 * (i + 1), 1536);
    lemma_hp_prefix(h, 256 * i, 256 * (i + 1));
    assert(b[55 + i] == hint_positions(h, 256 * (i + 1)).len() as u8);
    if i > 0 {
        lemma_hp_prefix(h, 256 * i, 1536);
        assert(b[55 + i - 1] == hint_positions(h, 256 * i).len() as u8);
    }
}

/// HintBitUnpack inverts HintBitPack: for a hint vector of 0/1 coefficients with
/// at most OMEGA ones, the encoding is well formed and decodes to the vector.
pub proof fn lemma_hint_roundtrip(h: Seq<Seq<int>>)
    requires
        h.len() == 6,
        forall|i: int| 0 <= i < 6 ==> #[trigger] h[i].len() == 256,
        forall|i: int, j: int| 0 <= i < 6 && 0 <= j < 256 ==> #[trigger] h[i][j] == 0 || h[i][j] == 1,
        hint_total(h) <= 55,
    ensures
        hint_encoding_valid(hint_bytes(h)),
        hint_decode(hint_bytes(h)) == h,
{
    let b = hint_bytes(h);
    let total = hint_count_upto(h, 1536);
    lemma_hp_range(h, 1536);
    assert forall|k: int| 0 <= k < total implies #[trigger] b[k] as int == hint_positions(h, 1536)[k] by {
        assert(0 <= k < 55);
        assert(0 <= hint_positions(h, 1536)[k] < 256);
    }
    // every listed entry at index k, as a coefficient index
    assert forall|i: int| 0 <= i < 6 implies hint_start(b, i) <= #[trigger] hint_end(b, i) <= 55 by {
        lemma_hint_bounds(h, i);
    }
    assert forall|i: int| 0 <= i < 6 implies #[trigger] hint_segment_increasing(b, i) by {
        lemma_hint_bounds(h, i);
        assert forall|k: int| hint_start(b, i) < k < hint_end(b, i) implies #[trigger] b[k - 1] < b[k] by {
            lemma_hp_prefix(h, 256 * (i + 1), 1536);
            lemma_hp_source(h, k, 1536);
            let u = choose|u: int| 0 <= u < 1536 && #[trigger] hint_at(h, u) != 0 && hint_count_upto(h, u) == k;
            lemma_hp_source(h, k - 1, 1536);
            let v = choose|u: int| 0 <= u < 1536 && #[trigger] hint_at(h, u) != 0 && hint_count_upto(h, u) == k - 1;
            lemma_hp_between(h, u, 256 * i, 256 * (i + 1));
            lemma_hp_between(h, v, 256 * i, 256 * (i + 1));
            lemma_hp_listed(h, u, 1536);
            lemma_hp_listed(h, v, 1536);
            if u <= v {
                lemma_hp_prefix(h, u, v);
            }
            assert(v < u);
            assert(b[k] as int == u % 256);
            assert(b[k - 1] as int == v % 256);
        }
    }
    lemma_hint_bounds(h, 5);
    assert forall|k: int| hint_end(b, 5) <= k < 55 implies #[trigger] b[k] == 0 by {}
    let d = hint_decode(b);
    assert forall|i: int| 0 <= i < 6 implies #[trigger] d[i] == h[i] by {
        lemma_hint_bounds(h, i);
        assert forall|j: int| 0 <= j < 256 implies #[trigger] d[i][j] == h[i][j] by {
            let u = 256 * i + j;
            assert(u / 256 == i && u % 256 == j);
            if h[i][j] != 0 {
                assert(hint_at(h, u) != 0);
                lemma_hp_listed(h, u, 1536);
                lemma_hp_listed(h, u, 256 * (i + 1));
                lemma_hp_prefix(h, 256 * i, u);
                let k = hint_count_upto(h, u);
                lemma_hp_prefix(h, 256 * (i + 1), 1536);
                assert(b[k] as int == j);
                assert(hint_listed(b, i, j));
            } else {
                if hint_listed(b, i, j) {
                    let k = choose|k: int| hint_start(b, i) <= k < hint_end(b, i) && #[trigger] b[k] as int == j;
                    lemma_hp_prefix(h, 256 * (i + 1), 1536);
                    lemma_hp_source(h, k, 1536);
                    let w = choose|w: int| 0 <= w < 1536 && #[trigger] hint_at(h, w) != 0 && hint_count_upto(h, w) == k;
                    lemma_hp_between(h, w, 256 * i, 256 * (i + 1));
                    lemma_hp_listed(h, w, 1536);
                    assert(w % 256 == j);
                    assert(w == u);
                    assert(false);
                }
            }
        }
        assert(d[i] =~= h[i]);
    }
    assert(d =~= h);
}

} // verus!

verus! {

/// The first position from k on, within the segment of polynomial i, that is
/// the segment's end or holds a byte of at least p.
pub open spec fn seg_pos(b: Seq<u8>, i: int, p: int, k: int) -> int
    decreases hint_end(b, i) - k,
{
    if k >= hint_end(b, i) || b[k] as int >= p { k } else { seg_pos(b, i, p, k + 1) }
}

/// Where the positions below p end in the segment of polynomial i.
pub open spec fn seg_cut(b: Seq<u8>, i: int, p: int) -> int {
    seg_pos(b, i, p, hint_start(b, i))
}

/// c splits the segment of polynomial i into the positions below p and the others.
pub open spec fn splits_at(b: Seq<u8>, i: int, p: int, c: int) -> bool {
    &&& hint_start(b, i) <= c <= hint_end(b, i)
    &&& forall|k: int| hint_start(b, i) <= k < c ==> (#[trigger] b[k] as int) < p
    &&& forall|k: int| c <= k < hint_end(b, i) ==> (#[trigger] b[k] as int) >= p
}

proof fn lemma_seg_increasing(b: Seq<u8>, i: int, k1: int, k2: int)
    requires
        hint_segment_increasing(b, i),
        hint_start(b, i) <= k1 < k2 < hint_end(b, i),
    ensures
        b[k1] < b[k2],
    decreases k2 - k1,
{
    assert(b[k2 - 1] < b[k2]);
    if k1 < k2 - 1 {
        lemma_seg_increasing(b, i, k1, k2 - 1);
    }
}

proof fn lemma_seg_pos(b: Seq<u8>, i: int, p: int, k: int)
    requires
        hint_segment_increasing(b, i),
        hint_start(b, i) <= k <= hint_end(b, i),
        forall|m: int| hint_start(b, i) <= m < k ==> (#[trigger] b[m] as int) < p,
    ensures
        splits_at(b, i, p, seg_pos(b, i, p, k)),
    decreases hint_end(b, i) - k,
{
    if k >= hint_end(b, i) {
    } else if b[k] as int >= p {
        assert forall|m: int| k <= m < hint_end(b, i) implies (#[trigger] b[m] as int) >= p by {
            if m > k {
                lemma_seg_increasing(b, i, k, m);
            }
        }
    } else {
        lemma_seg_pos(b, i, p, k + 1);
    }
}

proof fn lemma_splits_unique(b: Seq<u8>, i: int, p: int, c1: int, c2: int)
    requires
        splits_at(b, i, p, c1),
        splits_at(b, i, p, c2),
    ensures
        c1 == c2,
{
    if c1 < c2 {
        assert((b[c1] as int) < p);
    } else if c2 < c1 {
        assert((b[c2] as int) < p);
    }
}

/// The cut of the segment of polynomial i at p.
proof fn lemma_seg_cut(b: Seq<u8>, i: int, p: int)
    requires
        hint_segment_increasing(b, i),
        hint_start(b, i) <= hint_end(b, i),
    ensures
        splits_at(b, i, p, seg_cut(b, i, p)),
{
    lemma_seg_pos(b, i, p, hint_start(b, i));
}

/// The cut after the positions of hint_positions up to t, position t % 256 of
/// polynomial t / 256; the end of the last segment at 1536.
pub open spec fn cut_at(b: Seq<u8>, t: int) -> int {
    if t >= 1536 { hint_end(b, 5) } else { seg_cut(b, t / 256, t % 256) }
}

proof fn lemma_step_cut(b: Seq<u8>, i: int, p: int)
    requires
        hint_encoding_valid(b),
        0 <= i < 6,
        0 <= p < 256,
    ensures
        hint_listed(b, i, p) <==> (seg_cut(b, i, p) < hint_end(b, i) && b[seg_cut(b, i, p)] as int == p),
        seg_cut(b, i, p + 1) == if hint_listed(b, i, p) { seg_cut(b, i, p) + 1 } else { seg_cut(b, i, p) },
{
    assert(hint_segment_increasing(b, i));
    assert(hint_start(b, i) <= hint_end(b, i));
    lemma_seg_cut(b, i, p);
    lemma_seg_cut(b, i, p + 1);
    let c = seg_cut(b, i, p);
    if hint_listed(b, i, p) {
        let k = choose|k: int| hint_start(b, i) <= k < hint_end(b, i) && #[trigger] b[k] as int == p;
        if k > c {
            lemma_seg_increasing(b, i, c, k);
        }
        assert(k == c);
        assert forall|m: int| c + 1 <= m < hint_end(b, i) implies (#[trigger] b[m] as int) >= p + 1 by {
            lemma_seg_increasing(b, i, c, m);
        }
        assert(splits_at(b, i, p + 1, c + 1));
        lemma_splits_unique(b, i, p + 1, c + 1, seg_cut(b, i, p + 1));
    } else {
        if c < hint_end(b, i) && b[c] as int == p {
            assert(hint_listed(b, i, p));
        }
        assert(splits_at(b, i, p + 1, c));
        lemma_splits_unique(b, i, p + 1, c, seg_cut(b, i, p + 1));
    }
}

proof fn lemma_cut_ends(b: Seq<u8>, i: int)
    requires
        hint_encoding_valid(b),
        0 <= i < 6,
    ensures
        seg_cut(b, i, 0) == hint_start(b, i),
        seg_cut(b, i, 256) == hint_end(b, i),
{
    assert(hint_segment_increasing(b, i));
    assert(hint_start(b, i) <= hint_end(b, i));
    lemma_seg_cut(b, i, 0);
    lemma_seg_cut(b, i, 256);
    assert(splits_at(b, i, 0, hint_start(b, i)));
    lemma_splits_unique(b, i, 0, hint_start(b, i), seg_cut(b, i, 0));
    assert(splits_at(b, i, 256, hint_end(b, i)));
    lemma_splits_unique(b, i, 256, hint_end(b, i), seg_cut(b, i, 256));
}

/// The positions of the decoded hints up to t are the bytes of b before cut_at(b, t).
proof fn lemma_decoded_positions(b: Seq<u8>, t: int)
    requires
        b.len() == 61,
        hint_encoding_valid(b),
        0 <= t <= 1536,
    ensures
        hint_positions(hint_decode(b), t) == b.subrange(0, cut_at(b, t)).map_values(|x: u8| x as int),
    decreases t,
{
    let h = hint_decode(b);
    if t == 0 {
        lemma_cut_ends(b, 0);
        assert(hint_start(b, 0) == 0);
        assert(b.subrange(0, 0).map_values(|x: u8| x as int) =~= Seq::<int>::empty());
    } else {
        lemma_decoded_positions(b, t - 1);
        let i = (t - 1) / 256;
        let p = (t - 1) % 256;
        assert(0 <= i < 6 && 0 <= p < 256);
        lemma_step_cut(b, i, p);
        lemma_cut_ends(b, i);
        assert(cut_at(b, t - 1) == seg_cut(b, i, p));
        assert(cut_at(b, t) == seg_cut(b, i, p + 1)) by {
            if p < 255 {
                assert(t / 256 == i && t % 256 == p + 1);
            } else if i < 5 {
                assert(t / 256 == i + 1 && t % 256 == 0);
                lemma_cut_ends(b, i + 1);
                assert(hint_start(b, i + 1) == hint_end(b, i));
            } else {
                assert(t == 1536);
            }
        }
        assert(h[i][p] == if hint_listed(b, i, p) { 1int } else { 0int });
        let c = seg_cut(b, i, p);
        assert(hint_end(b, i) <= 55);
        assert(hint_segment_increasing(b, i));
        assert(hint_start(b, i) <= hint_end(b, i));
        lemma_seg_cut(b, i, p);
        assert(0 <= hint_start(b, i) <= c <= hint_end(b, i));
        if hint_listed(b, i, p) {
            assert(c < hint_end(b, i) && b[c] as int == p);
            let l = b.subrange(0, c + 1).map_values(|x: u8| x as int);
            let r = b.subrange(0, c).map_values(|x: u8| x as int).push(p);
            assert(l.len() == r.len());
            assert forall|m: int| 0 <= m < l.len() implies l[m] == r[m] by {
                if m < c {
                    assert(l[m] == b[m] as int);
                    assert(r[m] == b[m] as int);
                } else {
                    assert(l[m] == b[c] as int);
                }
            }
            assert(l =~= r);
        }
    }
}

/// Every well-formed hint encoding is the encoding of the hints it decodes to:
/// HintBitPack of HintBitUnpack gives the buffer back.
pub proof fn lemma_hint_reencode(b: Seq<u8>)
    requires
        b.len() == 61,
        hint_encoding_valid(b),
    ensures
        hint_bytes(hint_decode(b)) == b,
{
    let h = hint_decode(b);
    lemma_decoded_positions(b, 1536);
    let pos = hint_positions(h, 1536);
    assert(hint_end(b, 5) <= 55);
    assert forall|k: int| 0 <= k < 61 implies #[trigger] hint_bytes(h)[k] == b[k] by {
        if k < 55 {
            if k < pos.len() {
                assert(pos[k] == b[k] as int);
            } else {
                assert(b[k] == 0);
            }
        } else {
            let i = k - 55;
            lemma_decoded_positions(b, 256 * (i + 1));
            lemma_cut_ends(b, i);
            if i < 5 {
                assert((256 * (i + 1)) / 256 == i + 1 && (256 * (i + 1)) % 256 == 0);
                lemma_cut_ends(b, i + 1);
                assert(hint_start(b, i + 1) == hint_end(b, i));
            }
            assert(hint_positions(h, 256 * (k - 54)).len() == hint_end(b, i));
        }
    }
    assert(hint_bytes(h) =~= b);
}


/// HintBitUnpack accepts a 61-byte string and returns h exactly when h has
/// coefficients in {0, 1}, at most OMEGA = 55 of them set, and HintBitPack of h
/// is that string; every other string is rejected.
pub proof fn lemma_hint_unpack_exact(b: Seq<u8>, h: Seq<Seq<int>>)
    requires
        b.len() == 61,
        h.len() == 6,
        forall|i: int| 0 <= i < 6 ==> #[trigger] h[i].len() == 256,
    ensures
        (hint_encoding_valid(b) && hint_decode(b) == h) <==> ({
            &&& forall|i: int, j: int| 0 <= i < 6 && 0 <= j < 256 ==> #[trigger] h[i][j] == 0 || h[i][j] == 1
            &&& hint_total(h) <= 55
            &&& hint_bytes(h) == b
        }),
{
    if hint_encoding_valid(b) && hint_decode(b) == h {
        lemma_hint_reencode(b);
        lemma_decoded_positions(b, 1536);
        assert(hint_end(b, 5) <= 55);
        assert(hint_total(h) == cut_at(b, 1536));
    }
    if (forall|i: int, j: int| 0 <= i < 6 && 0 <= j < 256 ==> #[trigger] h[i][j] == 0 || h[i][j] == 1)
        && hint_total(h) <= 55 && hint_bytes(h) == b {
        lemma_hint_roundtrip(h);
    }
}

} // verus!
