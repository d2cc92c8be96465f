//! The number-theoretic transform over Z_q[X]/(X^256 + 1) (FIPS 204, Algorithms 41 and 42).

use vstd::prelude::*;
use vstd::arithmetic::div_mod::{
    lemma_fundamental_div_mod, lemma_fundamental_div_mod_converse, lemma_add_mod_noop_right,
    lemma_sub_mod_noop_right, lemma_mul_mod_noop_right,
};
use crate::constants::{N, Q, ZETAS};
use crate::polynomial::{q, reduce64, freeze};

verus! {

/// zeta(m) = 1753^{BitRev8(m)} mod q.
pub open spec fn zeta(m: int) -> int {
    ZETAS[m] as int
}

/// Half the block size of butterfly layer k (layer 0 has blocks of 256).
pub open spec fn llen(k: int) -> int {
    if k == 0 { 128 }
    else if k == 1 { 64 }
    else if k == 2 { 32 }
    else if k == 3 { 16 }
    else if k == 4 { 8 }
    else if k == 5 { 4 }
    else if k == 6 { 2 }
    else if k == 7 { 1 }
    else { 0 }
}

/// Index of the first zeta used by layer k (also its number of blocks).
pub open spec fn lbase(k: int) -> int {
    if k == 0 { 1 }
    else if k == 1 { 2 }
    else if k == 2 { 4 }
    else if k == 3 { 8 }
    else if k == 4 { 16 }
    else if k == 5 { 32 }
    else if k == 6 { 64 }
    else if k == 7 { 128 }
    else { 256 }
}

/// Coefficients of an array as integers.
pub open spec fn ints(s: Seq<i32>) -> Seq<int> {
    Seq::new(s.len(), |i: int| s[i] as int)
}

/// One Cooley-Tukey layer: in block b, (a, c) becomes (a + zeta*c, a - zeta*c) mod q
/// with zeta = zeta(lbase(k) + b).
pub open spec fn ntt_layer(w: Seq<int>, k: int) -> Seq<int> {
    Seq::new(256, |i: int| {
        let len = llen(k);
        let b = i / (2 * len);
        let z = zeta(lbase(k) + b);
        if i % (2 * len) < len {
            (w[i] + z * w[i + len]) % q()
        } else {
            (w[i - len] - z * w[i]) % q()
        }
    })
}

/// The first k forward layers applied to w.
pub open spec fn fwd(w: Seq<int>, k: int) -> Seq<int>
    decreases k,
{
    if k <= 0 { w } else { ntt_layer(fwd(w, k - 1), k - 1) }
}

/// The forward NTT of w.
pub open spec fn ntt_spec(w: Seq<int>) -> Seq<int> {
    fwd(w, 8)
}

/// One Gentleman-Sande layer: in block b, (a, c) becomes (a + c, zi*(a - c)) mod q
/// with zi = -zeta(2*lbase(k) - 1 - b) mod q.
pub open spec fn inv_layer(w: Seq<int>, k: int) -> Seq<int> {
    Seq::new(256, |i: int| {
        let len = llen(k);
        let b = i / (2 * len);
        let zi = q() - zeta(2 * lbase(k) - 1 - b);
        if i % (2 * len) < len {
            (w[i] + w[i + len]) % q()
        } else {
            (zi * (w[i - len] - w[i])) % q()
        }
    })
}

/// The inverse layers 7, 6, ..., k applied to w.
pub open spec fn bwd(w: Seq<int>, k: int) -> Seq<int>
    decreases 8 - k,
{
    if k >= 8 { w } else { inv_layer(bwd(w, k + 1), k) }
}

/// The inverse NTT of w: all inverse layers, then multiplication by 256^{-1} mod q.
pub open spec fn invntt_spec(w: Seq<int>) -> Seq<int> {
    Seq::new(256, |i: int| (8347681 * bwd(w, 0)[i]) % q())
}

/// Inputs on which the first forward layer stays within i32.
pub open spec fn ntt_input_ok(w: Seq<i32>) -> bool {
    forall|j: int| #![trigger w[j]] 0 <= j < 128 ==> {
        let t = (zeta(1) * w[j + 128]) % q();
        i32::MIN <= w[j] - t && w[j] + t <= i32::MAX
    }
}

/// Inputs on which the first inverse layer stays within i32.
pub open spec fn invntt_input_ok(w: Seq<i32>) -> bool {
    forall|j: int| #![trigger w[2 * j]] 0 <= j < 128 ==>
        i32::MIN <= w[2 * j] + w[2 * j + 1] <= i32::MAX
        && i32::MIN <= w[2 * j] - w[2 * j + 1] <= i32::MAX
}

/// Every coefficient is a canonical residue in [0, q).
pub open spec fn all_reduced(w: Seq<i32>) -> bool {
    forall|i: int| 0 <= i < w.len() ==> 0 <= #[trigger] w[i] < q()
}

/// Shape of layer k: 2*llen(k) * lbase(k) == 256, and the next layer halves the
/// blocks and doubles their number.
pub proof fn lemma_layer_consts(k: int)
    requires
        0 <= k < 8,
    ensures
        llen(k) >= 1,
        2 * llen(k) * lbase(k) == 256,
        256int % (2 * llen(k)) == 0,
        256int / (2 * llen(k)) == lbase(k),
        llen(k + 1) == llen(k) / 2,
        lbase(k + 1) == 2 * lbase(k),
{
    if k == 0 {
        assert(llen(k) == 128 && lbase(k) == 1 && llen(k + 1) == 64 && lbase(k + 1) == 2);
        assert(256int % 256 == 0 && 256int / 256 == 1);
    } else if k == 1 {
        assert(llen(k) == 64 && lbase(k) == 2 && llen(k + 1) == 32 && lbase(k + 1) == 4);
        assert(256int % 128 == 0 && 256int / 128 == 2);
    } else if k == 2 {
        assert(llen(k) == 32 && lbase(k) == 4 && llen(k + 1) == 16 && lbase(k + 1) == 8);
        assert(256int % 64 == 0 && 256int / 64 == 4);
    } else if k == 3 {
        assert(llen(k) == 16 && lbase(k) == 8 && llen(k + 1) == 8 && lbase(k + 1) == 16);
        assert(256int % 32 == 0 && 256int / 32 == 8);
    } else if k == 4 {
        assert(llen(k) == 8 && lbase(k) == 16 && llen(k + 1) == 4 && lbase(k + 1) == 32);
        assert(256int % 16 == 0 && 256int / 16 == 16);
    } else if k == 5 {
        assert(llen(k) == 4 && lbase(k) == 32 && llen(k + 1) == 2 && lbase(k + 1) == 64);
        assert(256int % 8 == 0 && 256int / 8 == 32);
    } else if k == 6 {
        assert(llen(k) == 2 && lbase(k) == 64 && llen(k + 1) == 1 && lbase(k + 1) == 128);
        assert(256int % 4 == 0 && 256int / 4 == 64);
    } else {
        assert(k == 7);
        assert(llen(k) == 1 && lbase(k) == 128 && llen(k + 1) == 0 && lbase(k + 1) == 256);
        assert(256int % 2 == 0 && 256int / 2 == 128);
    }
}

proof fn lemma_in_block(i: int, start: int, len2: int)
    requires
        len2 > 0,
        start >= 0,
        start % len2 == 0,
        start <= i < start + len2,
    ensures
        i / len2 == start / len2,
        i % len2 == i - start,
{
    lemma_fundamental_div_mod(start, len2);
    let b = start / len2;
    assert(i == b * len2 + (i - start)) by (nonlinear_arith)
        requires start == len2 * b + start % len2, start % len2 == 0;
    lemma_fundamental_div_mod_converse(i, len2, b, i - start);
}

proof fn lemma_next_block(start: int, len2: int)
    requires
        len2 > 0,
        start >= 0,
        start % len2 == 0,
    ensures
        (start + len2) % len2 == 0,
        (start + len2) / len2 == start / len2 + 1,
{
    lemma_fundamental_div_mod(start, len2);
    let b = start / len2;
    assert(start + len2 == (b + 1) * len2 + 0) by (nonlinear_arith)
        requires start == len2 * b + start % len2, start % len2 == 0;
    lemma_fundamental_div_mod_converse(start + len2, len2, b + 1, 0);
}

} // verus!

verus! {

/// The zeta(m) paired with zeta(m) by the inverse transform: in the layer whose
/// zetas are zeta(b)..zeta(2b-1), m is paired with 3b - 1 - m.
pub open spec fn zeta_partner(m: int) -> int {
    if m < 2 { 2 - m }
    else if m < 4 { 5 - m }
    else if m < 8 { 11 - m }
    else if m < 16 { 23 - m }
    else if m < 32 { 47 - m }
    else if m < 64 { 95 - m }
    else if m < 128 { 191 - m }
    else { 383 - m }
}

/// Facts about the zeta table: each entry is a nonzero residue, and each entry
/// times its partner is -1 mod q.
pub proof fn lemma_zeta_facts(m: int)
    requires
        1 <= m < 256,
    ensures
        0 < zeta(m) < q(),
        1 <= zeta_partner(m) < 256,
        (zeta(m) * zeta(zeta_partner(m))) % q() == q() - 1,
{
    if m < 128 {
        if m < 64 {
            if m < 32 {
                if m < 16 {
                    if m < 8 {
                        if m < 4 {
                            if m < 2 {
                                assert(m == 1);
                                assert(zeta(1) == 4808194 && zeta(1) == 4808194);
                                assert(4808194 * 4808194 == 23118729541636);
                            } else {
                                if m < 3 {
                                    assert(m == 2);
                                    assert(zeta(2) == 3765607 && zeta(3) == 3761513);
                                    assert(3765607 * 3761513 == 14164379683391);
                                } else {
                                    assert(m == 3);
                                    assert(zeta(3) == 3761513 && zeta(2) == 3765607);
                                    assert(3761513 * 3765607 == 14164379683391);
                                }
                            }
                        } else {
                            if m < 6 {
                                if m < 5 {
                                    assert(m == 4);
                                    assert(zeta(4) == 5178923 && zeta(7) == 5178987);
                                    assert(5178923 * 5178987 == 26821574891001);
                                } else {
                                    assert(m == 5);
                                    assert(zeta(5) == 5496691 && zeta(6) == 5234739);
                                    assert(5496691 * 5234739 == 28773742748649);
                                }
                            } else {
                                if m < 7 {
                                    assert(m == 6);
                                    assert(zeta(6) == 5234739 && zeta(5) == 5496691);
                                    assert(5234739 * 5496691 == 28773742748649);
                                } else {
                                    assert(m == 7);
                                    assert(zeta(7) == 5178987 && zeta(4) == 5178923);
                                    assert(5178987 * 5178923 == 26821574891001);
                                }
                            }
                        }
                    } else {
                        if m < 12 {
                            if m < 10 {
                                if m < 9 {
                                    assert(m == 8);
                                    assert(zeta(8) == 7778734 && zeta(15) == 7159240);
                                    assert(7778734 * 7159240 == 55689823602160);
                                } else {
                                    assert(m == 9);
                                    assert(zeta(9) == 3542485 && zeta(14) == 557458);
                                    assert(3542485 * 557458 == 1974786603130);
                                }
                            } else {
                                if m < 11 {
                                    assert(m == 10);
                                    assert(zeta(10) == 2682288 && zeta(13) == 7375178);
                                    assert(2682288 * 7375178 == 19782351447264);
                                } else {
                                    assert(m == 11);
                                    assert(zeta(11) == 2129892 && zeta(12) == 3764867);
                                    assert(2129892 * 3764867 == 8018760104364);
                                }
                            }
                        } else {
                            if m < 14 {
                                if m < 13 {
                                    assert(m == 12);
                                    assert(zeta(12) == 3764867 && zeta(11) == 2129892);
                                    assert(3764867 * 2129892 == 8018760104364);
                                } else {
                                    assert(m == 13);
                                    assert(zeta(13) == 7375178 && zeta(10) == 2682288);
                                    assert(7375178 * 2682288 == 19782351447264);
                                }
                            } else {
                                if m < 15 {
                                    assert(m == 14);
                                    assert(zeta(14) == 557458 && zeta(9) == 3542485);
                                    assert(557458 * 3542485 == 1974786603130);
                                } else {
                                    assert(m == 15);
                                    assert(zeta(15) == 7159240 && zeta(8) == 7778734);
                                    assert(7159240 * 7778734 == 55689823602160);
                                }
                            }
                        }
                    }
                } else {
                    if m < 24 {
                        if m < 20 {
                            if m < 18 {
                                if m < 17 {
                                    assert(m == 16);
                                    assert(zeta(16) == 5010068 && zeta(31) == 2283733);
                                    assert(5010068 * 2283733 == 11441657623844);
                                } else {
                                    assert(m == 17);
                                    assert(zeta(17) == 4317364 && zeta(30) == 2815639);
                                    assert(4317364 * 2815639 == 12156138455596);
                                }
                            } else {
                                if m < 19 {
                                    assert(m == 18);
                                    assert(zeta(18) == 2663378 && zeta(29) == 4795319);
                                    assert(2663378 * 4795319 == 12771747127582);
                                } else {
                                    assert(m == 19);
                                    assert(zeta(19) == 6705802 && zeta(28) == 7737789);
                                    assert(6705802 * 7737789 == 51888080951778);
                                }
                            }
                        } else {
                            if m < 22 {
                                if m < 21 {
                                    assert(m == 20);
                                    assert(zeta(20) == 4855975 && zeta(27) == 1460718);
                                    assert(4855975 * 1460718 == 7093210090050);
                                } else {
                                    assert(m == 21);
                                    assert(zeta(21) == 7946292 && zeta(26) == 2453983);
                                    assert(7946292 * 2453983 == 19500065481036);
                                }
                            } else {
                                if m < 23 {
                                    assert(m == 22);
                                    assert(zeta(22) == 676590 && zeta(25) == 1714295);
                                    assert(676590 * 1714295 == 1159874854050);
                                } else {
                                    assert(m == 23);
                                    assert(zeta(23) == 7044481 && zeta(24) == 5152541);
                                    assert(7044481 * 5152541 == 36296977176221);
                                }
                            }
                        }
                    } else {
                        if m < 28 {
                            if m < 26 {
                                if m < 25 {
                                    assert(m == 24);
                                    assert(zeta(24) == 5152541 && zeta(23) == 7044481);
                                    assert(5152541 * 7044481 == 36296977176221);
                                } else {
                                    assert(m == 25);
                                    assert(zeta(25) == 1714295 && zeta(22) == 676590);
                                    assert(1714295 * 676590 == 1159874854050);
                                }
                            } else {
                                if m < 27 {
                                    assert(m == 26);
                                    assert(zeta(26) == 2453983 && zeta(21) == 7946292);
                                    assert(2453983 * 7946292 == 19500065481036);
                                } else {
                                    assert(m == 27);
                                    assert(zeta(27) == 1460718 && zeta(20) == 4855975);
                                    assert(1460718 * 4855975 == 7093210090050);
                                }
                            }
                        } else {
                            if m < 30 {
                                if m < 29 {
                                    assert(m == 28);
                                    assert(zeta(28) == 7737789 && zeta(19) == 6705802);
                                    assert(7737789 * 6705802 == 51888080951778);
                                } else {
                                    assert(m == 29);
                                    assert(zeta(29) == 4795319 && zeta(18) == 2663378);
                                    assert(4795319 * 2663378 == 12771747127582);
                                }
                            } else {
                                if m < 31 {
                                    assert(m == 30);
                                    assert(zeta(30) == 2815639 && zeta(17) == 4317364);
                                    assert(2815639 * 4317364 == 12156138455596);
                                } else {
                                    assert(m == 31);
                                    assert(zeta(31) == 2283733 && zeta(16) == 5010068);
                                    assert(2283733 * 5010068 == 11441657623844);
                                }
                            }
                        }
                    }
                }
            } else {
                if m < 48 {
                    if m < 40 {
                        if m < 36 {
                            if m < 34 {
                                if m < 33 {
                                    assert(m == 32);
                                    assert(zeta(32) == 3602218 && zeta(63) == 1858416);
                                    assert(3602218 * 1858416 == 6694419566688);
                                } else {
                                    assert(m == 33);
                                    assert(zeta(33) == 3182878 && zeta(62) == 3345963);
                                    assert(3182878 * 3345963 == 10649792021514);
                                }
                            } else {
                                if m < 35 {
                                    assert(m == 34);
                                    assert(zeta(34) == 2740543 && zeta(61) == 1853806);
                                    assert(2740543 * 1853806 == 5080435056658);
                                } else {
                                    assert(m == 35);
                                    assert(zeta(35) == 4793971 && zeta(60) == 2917338);
                                    assert(4793971 * 2917338 == 13985633769198);
                                }
                            }
                        } else {
                            if m < 38 {
                                if m < 37 {
                                    assert(m == 36);
                                    assert(zeta(36) == 5269599 && zeta(59) == 3870317);
                                    assert(5269599 * 3870317 == 20395018592883);
                                } else {
                                    assert(m == 37);
                                    assert(zeta(37) == 2101410 && zeta(58) == 556856);
                                    assert(2101410 * 556856 == 1170182766960);
                                }
                            } else {
                                if m < 39 {
                                    assert(m == 38);
                                    assert(zeta(38) == 3704823 && zeta(57) == 3192354);
                                    assert(3704823 * 3192354 == 11827106523342);
                                } else {
                                    assert(m == 39);
                                    assert(zeta(39) == 1159875 && zeta(56) == 5483103);
                                    assert(1159875 * 5483103 == 6359714092125);
                                }
                            }
                        }
                    } else {
                        if m < 44 {
                            if m < 42 {
                                if m < 41 {
                                    assert(m == 40);
                                    assert(zeta(40) == 394148 && zeta(55) == 4430364);
                                    assert(394148 * 4430364 == 1746219109872);
                                } else {
                                    assert(m == 41);
                                    assert(zeta(41) == 928749 && zeta(54) == 6663429);
                                    assert(928749 * 6663429 == 6188653020321);
                                }
                            } else {
                                if m < 43 {
                                    assert(m == 42);
                                    assert(zeta(42) == 1095468 && zeta(53) == 6444618);
                                    assert(1095468 * 6444618 == 7059872791224);
                                } else {
                                    assert(m == 43);
                                    assert(zeta(43) == 4874037 && zeta(52) == 3756790);
                                    assert(4874037 * 3756790 == 18310733461230);
                                }
                            }
                        } else {
                            if m < 46 {
                                if m < 45 {
                                    assert(m == 44);
                                    assert(zeta(44) == 2071829 && zeta(51) == 4805951);
                                    assert(2071829 * 4805951 == 9957108654379);
                                } else {
                                    assert(m == 45);
                                    assert(zeta(45) == 4361428 && zeta(50) == 7562881);
                                    assert(4361428 * 7562881 == 32984960954068);
                                }
                            } else {
                                if m < 47 {
                                    assert(m == 46);
                                    assert(zeta(46) == 3241972 && zeta(49) == 1759347);
                                    assert(3241972 * 1759347 == 5703753712284);
                                } else {
                                    assert(m == 47);
                                    assert(zeta(47) == 2156050 && zeta(48) == 3415069);
                                    assert(2156050 * 3415069 == 7363059517450);
                                }
                            }
                        }
                    }
                } else {
                    if m < 56 {
                        if m < 52 {
                            if m < 50 {
                                if m < 49 {
                                    assert(m == 48);
                                    assert(zeta(48) == 3415069 && zeta(47) == 2156050);
                                    assert(3415069 * 2156050 == 7363059517450);
                                } else {
                                    assert(m == 49);
                                    assert(zeta(49) == 1759347 && zeta(46) == 3241972);
                                    assert(1759347 * 3241972 == 5703753712284);
                                }
                            } else {
                                if m < 51 {
                                    assert(m == 50);
                                    assert(zeta(50) == 7562881 && zeta(45) == 4361428);
                                    assert(7562881 * 4361428 == 32984960954068);
                                } else {
                                    assert(m == 51);
                                    assert(zeta(51) == 4805951 && zeta(44) == 2071829);
                                    assert(4805951 * 2071829 == 9957108654379);
                                }
                            }
                        } else {
                            if m < 54 {
                                if m < 53 {
                                    assert(m == 52);
                                    assert(zeta(52) == 3756790 && zeta(43) == 4874037);
                                    assert(3756790 * 4874037 == 18310733461230);
                                } else {
                                    assert(m == 53);
                                    assert(zeta(53) == 6444618 && zeta(42) == 1095468);
                                    assert(6444618 * 1095468 == 7059872791224);
                                }
                            } else {
                                if m < 55 {
                                    assert(m == 54);
                                    assert(zeta(54) == 6663429 && zeta(41) == 928749);
                                    assert(6663429 * 928749 == 6188653020321);
                                } else {
                                    assert(m == 55);
                                    assert(zeta(55) == 4430364 && zeta(40) == 394148);
                                    assert(4430364 * 394148 == 1746219109872);
                                }
                            }
                        }
                    } else {
                        if m < 60 {
                            if m < 58 {
                                if m < 57 {
                                    assert(m == 56);
                                    assert(zeta(56) == 5483103 && zeta(39) == 1159875);
                                    assert(5483103 * 1159875 == 6359714092125);
                                } else {
                                    assert(m == 57);
                                    assert(zeta(57) == 3192354 && zeta(38) == 3704823);
                                    assert(3192354 * 3704823 == 11827106523342);
                                }
                            } else {
                                if m < 59 {
                                    assert(m == 58);
                                    assert(zeta(58) == 556856 && zeta(37) == 2101410);
                                    assert(556856 * 2101410 == 1170182766960);
                                } else {
                                    assert(m == 59);
                                    assert(zeta(59) == 3870317 && zeta(36) == 5269599);
                                    assert(3870317 * 5269599 == 20395018592883);
                                }
                            }
                        } else {
                            if m < 62 {
                                if m < 61 {
                                    assert(m == 60);
                                    assert(zeta(60) == 2917338 && zeta(35) == 4793971);
                                    assert(2917338 * 4793971 == 13985633769198);
                                } else {
                                    assert(m == 61);
                                    assert(zeta(61) == 1853806 && zeta(34) == 2740543);
                                    assert(1853806 * 2740543 == 5080435056658);
                                }
                            } else {
                                if m < 63 {
                                    assert(m == 62);
                                    assert(zeta(62) == 3345963 && zeta(33) == 3182878);
                                    assert(3345963 * 3182878 == 10649792021514);
                                } else {
                                    assert(m == 63);
                                    assert(zeta(63) == 1858416 && zeta(32) == 3602218);
                                    assert(1858416 * 3602218 == 6694419566688);
                                }
                            }
                        }
                    }
                }
            }
        } else {
            if m < 96 {
                if m < 80 {
                    if m < 72 {
                        if m < 68 {
                            if m < 66 {
                                if m < 65 {
                                    assert(m == 64);
                                    assert(zeta(64) == 3073009 && zeta(127) == 1744507);
                                    assert(3073009 * 1744507 == 5360885711563);
                                } else {
                                    assert(m == 65);
                                    assert(zeta(65) == 1277625 && zeta(126) == 6143691);
                                    assert(1277625 * 6143691 == 7849333213875);
                                }
                            } else {
                                if m < 67 {
                                    assert(m == 66);
                                    assert(zeta(66) == 5744944 && zeta(125) == 6458164);
                                    assert(5744944 * 6458164 == 37101790522816);
                                } else {
                                    assert(m == 67);
                                    assert(zeta(67) == 3852015 && zeta(124) == 4561790);
                                    assert(3852015 * 4561790 == 17572083506850);
                                }
                            }
                        } else {
                            if m < 70 {
                                if m < 69 {
                                    assert(m == 68);
                                    assert(zeta(68) == 4183372 && zeta(123) == 6026202);
                                    assert(4183372 * 6026202 == 25209844713144);
                                } else {
                                    assert(m == 69);
                                    assert(zeta(69) == 5157610 && zeta(122) == 1011223);
                                    assert(5157610 * 1011223 == 5215493857030);
                                }
                            } else {
                                if m < 71 {
                                    assert(m == 70);
                                    assert(zeta(70) == 5258977 && zeta(121) == 8052569);
                                    assert(5258977 * 8052569 == 42348275161913);
                                } else {
                                    assert(m == 71);
                                    assert(zeta(71) == 8106357 && zeta(120) == 348812);
                                    assert(8106357 * 348812 == 2827594597884);
                                }
                            }
                        }
                    } else {
                        if m < 76 {
                            if m < 74 {
                                if m < 73 {
                                    assert(m == 72);
                                    assert(zeta(72) == 2508980 && zeta(119) == 7921254);
                                    assert(2508980 * 7921254 == 19874267860920);
                                } else {
                                    assert(m == 73);
                                    assert(zeta(73) == 2028118 && zeta(118) == 7727142);
                                    assert(2028118 * 7727142 == 15671555778756);
                                }
                            } else {
                                if m < 75 {
                                    assert(m == 74);
                                    assert(zeta(74) == 1937570 && zeta(117) == 2312838);
                                    assert(1937570 * 2312838 == 4481285523660);
                                } else {
                                    assert(m == 75);
                                    assert(zeta(75) == 4564692 && zeta(116) == 4912752);
                                    assert(4564692 * 4912752 == 22425199752384);
                                }
                            }
                        } else {
                            if m < 78 {
                                if m < 77 {
                                    assert(m == 76);
                                    assert(zeta(76) == 2811291 && zeta(115) == 5601629);
                                    assert(2811291 * 5601629 == 15747809193039);
                                } else {
                                    assert(m == 77);
                                    assert(zeta(77) == 5396636 && zeta(114) == 2683270);
                                    assert(5396636 * 2683270 == 14480631479720);
                                }
                            } else {
                                if m < 79 {
                                    assert(m == 78);
                                    assert(zeta(78) == 7270901 && zeta(113) == 5604662);
                                    assert(7270901 * 5604662 == 40750942540462);
                                } else {
                                    assert(m == 79);
                                    assert(zeta(79) == 4158088 && zeta(112) == 1356448);
                                    assert(4158088 * 1356448 == 5640230151424);
                                }
                            }
                        }
                    }
                } else {
                    if m < 88 {
                        if m < 84 {
                            if m < 82 {
                                if m < 81 {
                                    assert(m == 80);
                                    assert(zeta(80) == 1528066 && zeta(111) == 3374250);
                                    assert(1528066 * 3374250 == 5156076700500);
                                } else {
                                    assert(m == 81);
                                    assert(zeta(81) == 482649 && zeta(110) == 2925816);
                                    assert(482649 * 2925816 == 1412142166584);
                                }
                            } else {
                                if m < 83 {
                                    assert(m == 82);
                                    assert(zeta(82) == 1148858 && zeta(109) == 7153756);
                                    assert(1148858 * 7153756 == 8218649810648);
                                } else {
                                    assert(m == 83);
                                    assert(zeta(83) == 5418153 && zeta(108) == 3901472);
                                    assert(5418153 * 3901472 == 21138772221216);
                                }
                            }
                        } else {
                            if m < 86 {
                                if m < 85 {
                                    assert(m == 84);
                                    assert(zeta(84) == 7814814 && zeta(107) == 621164);
                                    assert(7814814 * 621164 == 4854281123496);
                                } else {
                                    assert(m == 85);
                                    assert(zeta(85) == 169688 && zeta(106) == 3035980);
                                    assert(169688 * 3035980 == 515169374240);
                                }
                            } else {
                                if m < 87 {
                                    assert(m == 86);
                                    assert(zeta(86) == 2462444 && zeta(105) == 2461387);
                                    assert(2462444 * 2461387 == 6061027649828);
                                } else {
                                    assert(m == 87);
                                    assert(zeta(87) == 5046034 && zeta(104) == 7062739);
                                    assert(5046034 * 7062739 == 35638821127126);
                                }
                            }
                        }
                    } else {
                        if m < 92 {
                            if m < 90 {
                                if m < 89 {
                                    assert(m == 88);
                                    assert(zeta(88) == 4213992 && zeta(103) == 6018354);
                                    assert(4213992 * 6018354 == 25361295609168);
                                } else {
                                    assert(m == 89);
                                    assert(zeta(89) == 4892034 && zeta(102) == 7080401);
                                    assert(4892034 * 7080401 == 34637562425634);
                                }
                            } else {
                                if m < 91 {
                                    assert(m == 90);
                                    assert(zeta(90) == 1987814 && zeta(101) == 4197502);
                                    assert(1987814 * 4197502 == 8343853240628);
                                } else {
                                    assert(m == 91);
                                    assert(zeta(91) == 5183169 && zeta(100) == 3482206);
                                    assert(5183169 * 3482206 == 18048862190814);
                                }
                            }
                        } else {
                            if m < 94 {
                                if m < 93 {
                                    assert(m == 92);
                                    assert(zeta(92) == 1736313 && zeta(99) == 6125690);
                                    assert(1736313 * 6125690 == 10636115180970);
                                } else {
                                    assert(m == 93);
                                    assert(zeta(93) == 235407 && zeta(98) == 5989328);
                                    assert(235407 * 5989328 == 1409929736496);
                                }
                            } else {
                                if m < 95 {
                                    assert(m == 94);
                                    assert(zeta(94) == 5130263 && zeta(97) == 1787943);
                                    assert(5130263 * 1787943 == 9172617819009);
                                } else {
                                    assert(m == 95);
                                    assert(zeta(95) == 3258457 && zeta(96) == 5801164);
                                    assert(3258457 * 5801164 == 18902843443948);
                                }
                            }
                        }
                    }
                }
            } else {
                if m < 112 {
                    if m < 104 {
                        if m < 100 {
                            if m < 98 {
                                if m < 97 {
                                    assert(m == 96);
                                    assert(zeta(96) == 5801164 && zeta(95) == 3258457);
                                    assert(5801164 * 3258457 == 18902843443948);
                                } else {
                                    assert(m == 97);
                                    assert(zeta(97) == 1787943 && zeta(94) == 5130263);
                                    assert(1787943 * 5130263 == 9172617819009);
                                }
                            } else {
                                if m < 99 {
                                    assert(m == 98);
                                    assert(zeta(98) == 5989328 && zeta(93) == 235407);
                                    assert(5989328 * 235407 == 1409929736496);
                                } else {
                                    assert(m == 99);
                                    assert(zeta(99) == 6125690 && zeta(92) == 1736313);
                                    assert(6125690 * 1736313 == 10636115180970);
                                }
                            }
                        } else {
                            if m < 102 {
                                if m < 101 {
                                    assert(m == 100);
                                    assert(zeta(100) == 3482206 && zeta(91) == 5183169);
                                    assert(3482206 * 5183169 == 18048862190814);
                                } else {
                                    assert(m == 101);
                                    assert(zeta(101) == 4197502 && zeta(90) == 1987814);
                                    assert(4197502 * 1987814 == 8343853240628);
                                }
                            } else {
                                if m < 103 {
                                    assert(m == 102);
                                    assert(zeta(102) == 7080401 && zeta(89) == 4892034);
                                    assert(7080401 * 4892034 == 34637562425634);
                                } else {
                                    assert(m == 103);
                                    assert(zeta(103) == 6018354 && zeta(88) == 4213992);
                                    assert(6018354 * 4213992 == 25361295609168);
                                }
                            }
                        }
                    } else {
                        if m < 108 {
                            if m < 106 {
                                if m < 105 {
                                    assert(m == 104);
                                    assert(zeta(104) == 7062739 && zeta(87) == 5046034);
                                    assert(7062739 * 5046034 == 35638821127126);
                                } else {
                                    assert(m == 105);
                                    assert(zeta(105) == 2461387 && zeta(86) == 2462444);
                                    assert(2461387 * 2462444 == 6061027649828);
                                }
                            } else {
                                if m < 107 {
                                    assert(m == 106);
                                    assert(zeta(106) == 3035980 && zeta(85) == 169688);
                                    assert(3035980 * 169688 == 515169374240);
                                } else {
                                    assert(m == 107);
                                    assert(zeta(107) == 621164 && zeta(84) == 7814814);
                                    assert(621164 * 7814814 == 4854281123496);
                                }
                            }
                        } else {
                            if m < 110 {
                                if m < 109 {
                                    assert(m == 108);
                                    assert(zeta(108) == 3901472 && zeta(83) == 5418153);
                                    assert(3901472 * 5418153 == 21138772221216);
                                } else {
                                    assert(m == 109);
                                    assert(zeta(109) == 7153756 && zeta(82) == 1148858);
                                    assert(7153756 * 1148858 == 8218649810648);
                                }
                            } else {
                                if m < 111 {
                                    assert(m == 110);
                                    assert(zeta(110) == 2925816 && zeta(81) == 482649);
                                    assert(2925816 * 482649 == 1412142166584);
                                } else {
                                    assert(m == 111);
                                    assert(zeta(111) == 3374250 && zeta(80) == 1528066);
                                    assert(3374250 * 1528066 == 5156076700500);
                                }
                            }
                        }
                    }
                } else {
                    if m < 120 {
                        if m < 116 {
                            if m < 114 {
                                if m < 113 {
                                    assert(m == 112);
                                    assert(zeta(112) == 1356448 && zeta(79) == 4158088);
                                    assert(1356448 * 4158088 == 5640230151424);
                                } else {
                                    assert(m == 113);
                                    assert(zeta(113) == 5604662 && zeta(78) == 7270901);
                                    assert(5604662 * 7270901 == 40750942540462);
                                }
                            } else {
                                if m < 115 {
                                    assert(m == 114);
                                    assert(zeta(114) == 2683270 && zeta(77) == 5396636);
                                    assert(2683270 * 5396636 == 14480631479720);
                                } else {
                                    assert(m == 115);
                                    assert(zeta(115) == 5601629 && zeta(76) == 2811291);
                                    assert(5601629 * 2811291 == 15747809193039);
                                }
                            }
                        } else {
                            if m < 118 {
                                if m < 117 {
                                    assert(m == 116);
                                    assert(zeta(116) == 4912752 && zeta(75) == 4564692);
                                    assert(4912752 * 4564692 == 22425199752384);
                                } else {
                                    assert(m == 117);
                                    assert(zeta(117) == 2312838 && zeta(74) == 1937570);
                                    assert(2312838 * 1937570 == 4481285523660);
                                }
                            } else {
                                if m < 119 {
                                    assert(m == 118);
                                    assert(zeta(118) == 7727142 && zeta(73) == 2028118);
                                    assert(7727142 * 2028118 == 15671555778756);
                                } else {
                                    assert(m == 119);
                                    assert(zeta(119) == 7921254 && zeta(72) == 2508980);
                                    assert(7921254 * 2508980 == 19874267860920);
                                }
                            }
                        }
                    } else {
                        if m < 124 {
                            if m < 122 {
                                if m < 121 {
                                    assert(m == 120);
                                    assert(zeta(120) == 348812 && zeta(71) == 8106357);
                                    assert(348812 * 8106357 == 2827594597884);
                                } else {
                                    assert(m == 121);
                                    assert(zeta(121) == 8052569 && zeta(70) == 5258977);
                                    assert(8052569 * 5258977 == 42348275161913);
                                }
                            } else {
                                if m < 123 {
                                    assert(m == 122);
                                    assert(zeta(122) == 1011223 && zeta(69) == 5157610);
                                    assert(1011223 * 5157610 == 5215493857030);
                                } else {
                                    assert(m == 123);
                                    assert(zeta(123) == 6026202 && zeta(68) == 4183372);
                                    assert(6026202 * 4183372 == 25209844713144);
                                }
                            }
                        } else {
                            if m < 126 {
                                if m < 125 {
                                    assert(m == 124);
                                    assert(zeta(124) == 4561790 && zeta(67) == 3852015);
                                    assert(4561790 * 3852015 == 17572083506850);
                                } else {
                                    assert(m == 125);
                                    assert(zeta(125) == 6458164 && zeta(66) == 5744944);
                                    assert(6458164 * 5744944 == 37101790522816);
                                }
                            } else {
                                if m < 127 {
                                    assert(m == 126);
                                    assert(zeta(126) == 6143691 && zeta(65) == 1277625);
                                    assert(6143691 * 1277625 == 7849333213875);
                                } else {
                                    assert(m == 127);
                                    assert(zeta(127) == 1744507 && zeta(64) == 3073009);
                                    assert(1744507 * 3073009 == 5360885711563);
                                }
                            }
                        }
                    }
                }
            }
        }
    } else {
        if m < 192 {
            if m < 160 {
                if m < 144 {
                    if m < 136 {
                        if m < 132 {
                            if m < 130 {
                                if m < 129 {
                                    assert(m == 128);
                                    assert(zeta(128) == 1753 && zeta(255) == 7648983);
                                    assert(1753 * 7648983 == 13408667199);
                                } else {
                                    assert(m == 129);
                                    assert(zeta(129) == 6444997 && zeta(254) == 1054478);
                                    assert(6444997 * 1054478 == 6796107546566);
                                }
                            } else {
                                if m < 131 {
                                    assert(m == 130);
                                    assert(zeta(130) == 5720892 && zeta(253) == 7598542);
                                    assert(5720892 * 7598542 == 43470438139464);
                                } else {
                                    assert(m == 131);
                                    assert(zeta(131) == 6924527 && zeta(252) == 1900052);
                                    assert(6924527 * 1900052 == 13156961375404);
                                }
                            }
                        } else {
                            if m < 134 {
                                if m < 133 {
                                    assert(m == 132);
                                    assert(zeta(132) == 2660408 && zeta(251) == 4606686);
                                    assert(2660408 * 4606686 == 12255664287888);
                                } else {
                                    assert(m == 133);
                                    assert(zeta(133) == 6600190 && zeta(250) == 4405932);
                                    assert(6600190 * 4405932 == 29079988327080);
                                }
                            } else {
                                if m < 135 {
                                    assert(m == 134);
                                    assert(zeta(134) == 8321269 && zeta(249) == 3531229);
                                    assert(8321269 * 3531229 == 29384306409601);
                                } else {
                                    assert(m == 135);
                                    assert(zeta(135) == 2772600 && zeta(248) == 8077412);
                                    assert(2772600 * 8077412 == 22395432511200);
                                }
                            }
                        }
                    } else {
                        if m < 140 {
                            if m < 138 {
                                if m < 137 {
                                    assert(m == 136);
                                    assert(zeta(136) == 1182243 && zeta(247) == 7987710);
                                    assert(1182243 * 7987710 == 9443414233530);
                                } else {
                                    assert(m == 137);
                                    assert(zeta(137) == 87208 && zeta(246) == 2926054);
                                    assert(87208 * 2926054 == 255175317232);
                                }
                            } else {
                                if m < 139 {
                                    assert(m == 138);
                                    assert(zeta(138) == 636927 && zeta(245) == 6663603);
                                    assert(636927 * 6663603 == 4244228667981);
                                } else {
                                    assert(m == 139);
                                    assert(zeta(139) == 4415111 && zeta(244) == 5365997);
                                    assert(4415111 * 5365997 == 23691472380667);
                                }
                            }
                        } else {
                            if m < 142 {
                                if m < 141 {
                                    assert(m == 140);
                                    assert(zeta(140) == 4423672 && zeta(243) == 6187330);
                                    assert(4423672 * 6187330 == 27370718475760);
                                } else {
                                    assert(m == 141);
                                    assert(zeta(141) == 6084020 && zeta(242) == 2358373);
                                    assert(6084020 * 2358373 == 14348388499460);
                                }
                            } else {
                                if m < 143 {
                                    assert(m == 142);
                                    assert(zeta(142) == 5095502 && zeta(241) == 3123762);
                                    assert(5095502 * 3123762 == 15917135518524);
                                } else {
                                    assert(m == 143);
                                    assert(zeta(143) == 4663471 && zeta(240) == 6195333);
                                    assert(4663471 * 6195333 == 28891755780843);
                                }
                            }
                        }
                    }
                } else {
                    if m < 152 {
                        if m < 148 {
                            if m < 146 {
                                if m < 145 {
                                    assert(m == 144);
                                    assert(zeta(144) == 8352605 && zeta(239) == 6866265);
                                    assert(8352605 * 6866265 == 57351199370325);
                                } else {
                                    assert(m == 145);
                                    assert(zeta(145) == 822541 && zeta(238) == 140244);
                                    assert(822541 * 140244 == 115356440004);
                                }
                            } else {
                                if m < 147 {
                                    assert(m == 146);
                                    assert(zeta(146) == 1009365 && zeta(237) == 3430436);
                                    assert(1009365 * 3430436 == 3462562033140);
                                } else {
                                    assert(m == 147);
                                    assert(zeta(147) == 5926272 && zeta(236) == 860144);
                                    assert(5926272 * 860144 == 5097447303168);
                                }
                            }
                        } else {
                            if m < 150 {
                                if m < 149 {
                                    assert(m == 148);
                                    assert(zeta(148) == 6400920 && zeta(235) == 7826699);
                                    assert(6400920 * 7826699 == 50098074163080);
                                } else {
                                    assert(m == 149);
                                    assert(zeta(149) == 1596822 && zeta(234) == 508145);
                                    assert(1596822 * 508145 == 811417115190);
                                }
                            } else {
                                if m < 151 {
                                    assert(m == 150);
                                    assert(zeta(150) == 4423473 && zeta(233) == 7277073);
                                    assert(4423473 * 7277073 == 32189935934529);
                                } else {
                                    assert(m == 151);
                                    assert(zeta(151) == 4620952 && zeta(232) == 3105558);
                                    assert(4620952 * 3105558 == 14350634451216);
                                }
                            }
                        }
                    } else {
                        if m < 156 {
                            if m < 154 {
                                if m < 153 {
                                    assert(m == 152);
                                    assert(zeta(152) == 6695264 && zeta(231) == 7609976);
                                    assert(6695264 * 7609976 == 50950798353664);
                                } else {
                                    assert(m == 153);
                                    assert(zeta(153) == 4969849 && zeta(230) == 545376);
                                    assert(4969849 * 545376 == 2710436368224);
                                }
                            } else {
                                if m < 155 {
                                    assert(m == 154);
                                    assert(zeta(154) == 2678278 && zeta(229) == 214880);
                                    assert(2678278 * 214880 == 575508376640);
                                } else {
                                    assert(m == 155);
                                    assert(zeta(155) == 4611469 && zeta(228) == 3363542);
                                    assert(4611469 * 3363542 == 15510869663198);
                                }
                            }
                        } else {
                            if m < 158 {
                                if m < 157 {
                                    assert(m == 156);
                                    assert(zeta(156) == 4829411 && zeta(227) == 3020393);
                                    assert(4829411 * 3020393 == 14586719178523);
                                } else {
                                    assert(m == 157);
                                    assert(zeta(157) == 635956 && zeta(226) == 7009900);
                                    assert(635956 * 7009900 == 4457987964400);
                                }
                            } else {
                                if m < 159 {
                                    assert(m == 158);
                                    assert(zeta(158) == 8129971 && zeta(225) == 8368538);
                                    assert(8129971 * 8368538 == 68035971252398);
                                } else {
                                    assert(m == 159);
                                    assert(zeta(159) == 5925040 && zeta(224) == 3994671);
                                    assert(5925040 * 3994671 == 23668585461840);
                                }
                            }
                        }
                    }
                }
            } else {
                if m < 176 {
                    if m < 168 {
                        if m < 164 {
                            if m < 162 {
                                if m < 161 {
                                    assert(m == 160);
                                    assert(zeta(160) == 4234153 && zeta(223) == 5011144);
                                    assert(4234153 * 5011144 == 21217950401032);
                                } else {
                                    assert(m == 161);
                                    assert(zeta(161) == 6607829 && zeta(222) == 1163598);
                                    assert(6607829 * 1163598 == 7688856608742);
                                }
                            } else {
                                if m < 163 {
                                    assert(m == 162);
                                    assert(zeta(162) == 2192938 && zeta(221) == 2028038);
                                    assert(2192938 * 2028038 == 4447361595644);
                                } else {
                                    assert(m == 163);
                                    assert(zeta(163) == 6653329 && zeta(220) == 1665318);
                                    assert(6653329 * 1665318 == 11079908543622);
                                }
                            }
                        } else {
                            if m < 166 {
                                if m < 165 {
                                    assert(m == 164);
                                    assert(zeta(164) == 2387513 && zeta(219) == 1723229);
                                    assert(2387513 * 1723229 == 4114231639477);
                                } else {
                                    assert(m == 165);
                                    assert(zeta(165) == 4768667 && zeta(218) == 6764887);
                                    assert(4768667 * 6764887 == 32259493395629);
                                }
                            } else {
                                if m < 167 {
                                    assert(m == 166);
                                    assert(zeta(166) == 8111961 && zeta(217) == 2569011);
                                    assert(8111961 * 2569011 == 20839717040571);
                                } else {
                                    assert(m == 167);
                                    assert(zeta(167) == 5199961 && zeta(216) == 3980599);
                                    assert(5199961 * 3980599 == 20698959556639);
                                }
                            }
                        }
                    } else {
                        if m < 172 {
                            if m < 170 {
                                if m < 169 {
                                    assert(m == 168);
                                    assert(zeta(168) == 3747250 && zeta(215) == 4357667);
                                    assert(3747250 * 4357667 == 16329267665750);
                                } else {
                                    assert(m == 169);
                                    assert(zeta(169) == 2296099 && zeta(214) == 749577);
                                    assert(2296099 * 749577 == 1721103000123);
                                }
                            } else {
                                if m < 171 {
                                    assert(m == 170);
                                    assert(zeta(170) == 1239911 && zeta(213) == 4148469);
                                    assert(1239911 * 4148469 == 5143732346259);
                                } else {
                                    assert(m == 171);
                                    assert(zeta(171) == 4541938 && zeta(212) == 5767564);
                                    assert(4541938 * 5767564 == 26195918099032);
                                }
                            }
                        } else {
                            if m < 174 {
                                if m < 173 {
                                    assert(m == 172);
                                    assert(zeta(172) == 3195676 && zeta(211) == 3009748);
                                    assert(3195676 * 3009748 == 9618179449648);
                                } else {
                                    assert(m == 173);
                                    assert(zeta(173) == 2642980 && zeta(210) == 2647994);
                                    assert(2642980 * 2647994 == 6998595182120);
                                }
                            } else {
                                if m < 175 {
                                    assert(m == 174);
                                    assert(zeta(174) == 1254190 && zeta(209) == 8041997);
                                    assert(1254190 * 8041997 == 10086192217430);
                                } else {
                                    assert(m == 175);
                                    assert(zeta(175) == 8368000 && zeta(208) == 5346675);
                                    assert(8368000 * 5346675 == 44740976400000);
                                }
                            }
                        }
                    }
                } else {
                    if m < 184 {
                        if m < 180 {
                            if m < 178 {
                                if m < 177 {
                                    assert(m == 176);
                                    assert(zeta(176) == 2998219 && zeta(207) == 6545891);
                                    assert(2998219 * 6545891 == 19626014768129);
                                } else {
                                    assert(m == 177);
                                    assert(zeta(177) == 141835 && zeta(206) == 7655613);
                                    assert(141835 * 7655613 == 1085833869855);
                                }
                            } else {
                                if m < 179 {
                                    assert(m == 178);
                                    assert(zeta(178) == 8291116 && zeta(205) == 7192532);
                                    assert(8291116 * 7192532 == 59634117145712);
                                } else {
                                    assert(m == 179);
                                    assert(zeta(179) == 2513018 && zeta(204) == 507927);
                                    assert(2513018 * 507927 == 1276429693686);
                                }
                            }
                        } else {
                            if m < 182 {
                                if m < 181 {
                                    assert(m == 180);
                                    assert(zeta(180) == 7025525 && zeta(203) == 6987258);
                                    assert(7025525 * 6987258 == 49089155760450);
                                } else {
                                    assert(m == 181);
                                    assert(zeta(181) == 613238 && zeta(202) == 2491325);
                                    assert(613238 * 2491325 == 1527775160350);
                                }
                            } else {
                                if m < 183 {
                                    assert(m == 182);
                                    assert(zeta(182) == 7070156 && zeta(201) == 1994046);
                                    assert(7070156 * 1994046 == 14098216291176);
                                } else {
                                    assert(m == 183);
                                    assert(zeta(183) == 6161950 && zeta(200) == 6903432);
                                    assert(6161950 * 6903432 == 42538602812400);
                                }
                            }
                        }
                    } else {
                        if m < 188 {
                            if m < 186 {
                                if m < 185 {
                                    assert(m == 184);
                                    assert(zeta(184) == 7921677 && zeta(199) == 5637006);
                                    assert(7921677 * 5637006 == 44654540779062);
                                } else {
                                    assert(m == 185);
                                    assert(zeta(185) == 6458423 && zeta(198) == 527981);
                                    assert(6458423 * 527981 == 3409924633963);
                                }
                            } else {
                                if m < 187 {
                                    assert(m == 186);
                                    assert(zeta(186) == 4040196 && zeta(197) == 7200804);
                                    assert(4040196 * 7200804 == 29092659517584);
                                } else {
                                    assert(m == 187);
                                    assert(zeta(187) == 4908348 && zeta(196) == 586241);
                                    assert(4908348 * 586241 == 2877474839868);
                                }
                            }
                        } else {
                            if m < 190 {
                                if m < 189 {
                                    assert(m == 188);
                                    assert(zeta(188) == 2039144 && zeta(195) == 6346610);
                                    assert(2039144 * 6346610 == 12941651701840);
                                } else {
                                    assert(m == 189);
                                    assert(zeta(189) == 6500539 && zeta(194) == 6006015);
                                    assert(6500539 * 6006015 == 39042334742085);
                                }
                            } else {
                                if m < 191 {
                                    assert(m == 190);
                                    assert(zeta(190) == 7561656 && zeta(193) == 2105286);
                                    assert(7561656 * 2105286 == 15919448513616);
                                } else {
                                    assert(m == 191);
                                    assert(zeta(191) == 6201452 && zeta(192) == 6757063);
                                    assert(6201452 * 6757063 == 41903601855476);
                                }
                            }
                        }
                    }
                }
            }
        } else {
            if m < 224 {
                if m < 208 {
                    if m < 200 {
                        if m < 196 {
                            if m < 194 {
                                if m < 193 {
                                    assert(m == 192);
                                    assert(zeta(192) == 6757063 && zeta(191) == 6201452);
                                    assert(6757063 * 6201452 == 41903601855476);
                                } else {
                                    assert(m == 193);
                                    assert(zeta(193) == 2105286 && zeta(190) == 7561656);
                                    assert(2105286 * 7561656 == 15919448513616);
                                }
                            } else {
                                if m < 195 {
                                    assert(m == 194);
                                    assert(zeta(194) == 6006015 && zeta(189) == 6500539);
                                    assert(6006015 * 6500539 == 39042334742085);
                                } else {
                                    assert(m == 195);
                                    assert(zeta(195) == 6346610 && zeta(188) == 2039144);
                                    assert(6346610 * 2039144 == 12941651701840);
                                }
                            }
                        } else {
                            if m < 198 {
                                if m < 197 {
                                    assert(m == 196);
                                    assert(zeta(196) == 586241 && zeta(187) == 4908348);
                                    assert(586241 * 4908348 == 2877474839868);
                                } else {
                                    assert(m == 197);
                                    assert(zeta(197) == 7200804 && zeta(186) == 4040196);
                                    assert(7200804 * 4040196 == 29092659517584);
                                }
                            } else {
                                if m < 199 {
                                    assert(m == 198);
                                    assert(zeta(198) == 527981 && zeta(185) == 6458423);
                                    assert(527981 * 6458423 == 3409924633963);
                                } else {
                                    assert(m == 199);
                                    assert(zeta(199) == 5637006 && zeta(184) == 7921677);
                                    assert(5637006 * 7921677 == 44654540779062);
                                }
                            }
                        }
                    } else {
                        if m < 204 {
                            if m < 202 {
                                if m < 201 {
                                    assert(m == 200);
                                    assert(zeta(200) == 6903432 && zeta(183) == 6161950);
                                    assert(6903432 * 6161950 == 42538602812400);
                                } else {
                                    assert(m == 201);
                                    assert(zeta(201) == 1994046 && zeta(182) == 7070156);
                                    assert(1994046 * 7070156 == 14098216291176);
                                }
                            } else {
                                if m < 203 {
                                    assert(m == 202);
                                    assert(zeta(202) == 2491325 && zeta(181) == 613238);
                                    assert(2491325 * 613238 == 1527775160350);
                                } else {
                                    assert(m == 203);
                                    assert(zeta(203) == 6987258 && zeta(180) == 7025525);
                                    assert(6987258 * 7025525 == 49089155760450);
                                }
                            }
                        } else {
                            if m < 206 {
                                if m < 205 {
                                    assert(m == 204);
                                    assert(zeta(204) == 507927 && zeta(179) == 2513018);
                                    assert(507927 * 2513018 == 1276429693686);
                                } else {
                                    assert(m == 205);
                                    assert(zeta(205) == 7192532 && zeta(178) == 8291116);
                                    assert(7192532 * 8291116 == 59634117145712);
                                }
                            } else {
                                if m < 207 {
                                    assert(m == 206);
                                    assert(zeta(206) == 7655613 && zeta(177) == 141835);
                                    assert(7655613 * 141835 == 1085833869855);
                                } else {
                                    assert(m == 207);
                                    assert(zeta(207) == 6545891 && zeta(176) == 2998219);
                                    assert(6545891 * 2998219 == 19626014768129);
                                }
                            }
                        }
                    }
                } else {
                    if m < 216 {
                        if m < 212 {
                            if m < 210 {
                                if m < 209 {
                                    assert(m == 208);
                                    assert(zeta(208) == 5346675 && zeta(175) == 8368000);
                                    assert(5346675 * 8368000 == 44740976400000);
                                } else {
                                    assert(m == 209);
                                    assert(zeta(209) == 8041997 && zeta(174) == 1254190);
                                    assert(8041997 * 1254190 == 10086192217430);
                                }
                            } else {
                                if m < 211 {
                                    assert(m == 210);
                                    assert(zeta(210) == 2647994 && zeta(173) == 2642980);
                                    assert(2647994 * 2642980 == 6998595182120);
                                } else {
                                    assert(m == 211);
                                    assert(zeta(211) == 3009748 && zeta(172) == 3195676);
                                    assert(3009748 * 3195676 == 9618179449648);
                                }
                            }
                        } else {
                            if m < 214 {
                                if m < 213 {
                                    assert(m == 212);
                                    assert(zeta(212) == 5767564 && zeta(171) == 4541938);
                                    assert(5767564 * 4541938 == 26195918099032);
                                } else {
                                    assert(m == 213);
                                    assert(zeta(213) == 4148469 && zeta(170) == 1239911);
                                    assert(4148469 * 1239911 == 5143732346259);
                                }
                            } else {
                                if m < 215 {
                                    assert(m == 214);
                                    assert(zeta(214) == 749577 && zeta(169) == 2296099);
                                    assert(749577 * 2296099 == 1721103000123);
                                } else {
                                    assert(m == 215);
                                    assert(zeta(215) == 4357667 && zeta(168) == 3747250);
                                    assert(4357667 * 3747250 == 16329267665750);
                                }
                            }
                        }
                    } else {
                        if m < 220 {
                            if m < 218 {
                                if m < 217 {
                                    assert(m == 216);
                                    assert(zeta(216) == 3980599 && zeta(167) == 5199961);
                                    assert(3980599 * 5199961 == 20698959556639);
                                } else {
                                    assert(m == 217);
                                    assert(zeta(217) == 2569011 && zeta(166) == 8111961);
                                    assert(2569011 * 8111961 == 20839717040571);
                                }
                            } else {
                                if m < 219 {
                                    assert(m == 218);
                                    assert(zeta(218) == 6764887 && zeta(165) == 4768667);
                                    assert(6764887 * 4768667 == 32259493395629);
                                } else {
                                    assert(m == 219);
                                    assert(zeta(219) == 1723229 && zeta(164) == 2387513);
                                    assert(1723229 * 2387513 == 4114231639477);
                                }
                            }
                        } else {
                            if m < 222 {
                                if m < 221 {
                                    assert(m == 220);
                                    assert(zeta(220) == 1665318 && zeta(163) == 6653329);
                                    assert(1665318 * 6653329 == 11079908543622);
                                } else {
                                    assert(m == 221);
                                    assert(zeta(221) == 2028038 && zeta(162) == 2192938);
                                    assert(2028038 * 2192938 == 4447361595644);
                                }
                            } else {
                                if m < 223 {
                                    assert(m == 222);
                                    assert(zeta(222) == 1163598 && zeta(161) == 6607829);
                                    assert(1163598 * 6607829 == 7688856608742);
                                } else {
                                    assert(m == 223);
                                    assert(zeta(223) == 5011144 && zeta(160) == 4234153);
                                    assert(5011144 * 4234153 == 21217950401032);
                                }
                            }
                        }
                    }
                }
            } else {
                if m < 240 {
                    if m < 232 {
                        if m < 228 {
                            if m < 226 {
                                if m < 225 {
                                    assert(m == 224);
                                    assert(zeta(224) == 3994671 && zeta(159) == 5925040);
                                    assert(3994671 * 5925040 == 23668585461840);
                                } else {
                                    assert(m == 225);
                                    assert(zeta(225) == 8368538 && zeta(158) == 8129971);
                                    assert(8368538 * 8129971 == 68035971252398);
                                }
                            } else {
                                if m < 227 {
                                    assert(m == 226);
                                    assert(zeta(226) == 7009900 && zeta(157) == 635956);
                                    assert(7009900 * 635956 == 4457987964400);
                                } else {
                                    assert(m == 227);
                                    assert(zeta(227) == 3020393 && zeta(156) == 4829411);
                                    assert(3020393 * 4829411 == 14586719178523);
                                }
                            }
                        } else {
                            if m < 230 {
                                if m < 229 {
                                    assert(m == 228);
                                    assert(zeta(228) == 3363542 && zeta(155) == 4611469);
                                    assert(3363542 * 4611469 == 15510869663198);
                                } else {
                                    assert(m == 229);
                                    assert(zeta(229) == 214880 && zeta(154) == 2678278);
                                    assert(214880 * 2678278 == 575508376640);
                                }
                            } else {
                                if m < 231 {
                                    assert(m == 230);
                                    assert(zeta(230) == 545376 && zeta(153) == 4969849);
                                    assert(545376 * 4969849 == 2710436368224);
                                } else {
                                    assert(m == 231);
                                    assert(zeta(231) == 7609976 && zeta(152) == 6695264);
                                    assert(7609976 * 6695264 == 50950798353664);
                                }
                            }
                        }
                    } else {
                        if m < 236 {
                            if m < 234 {
                                if m < 233 {
                                    assert(m == 232);
                                    assert(zeta(232) == 3105558 && zeta(151) == 4620952);
                                    assert(3105558 * 4620952 == 14350634451216);
                                } else {
                                    assert(m == 233);
                                    assert(zeta(233) == 7277073 && zeta(150) == 4423473);
                                    assert(7277073 * 4423473 == 32189935934529);
                                }
                            } else {
                                if m < 235 {
                                    assert(m == 234);
                                    assert(zeta(234) == 508145 && zeta(149) == 1596822);
                                    assert(508145 * 1596822 == 811417115190);
                                } else {
                                    assert(m == 235);
                                    assert(zeta(235) == 7826699 && zeta(148) == 6400920);
                                    assert(7826699 * 6400920 == 50098074163080);
                                }
                            }
                        } else {
                            if m < 238 {
                                if m < 237 {
                                    assert(m == 236);
                                    assert(zeta(236) == 860144 && zeta(147) == 5926272);
                                    assert(860144 * 5926272 == 5097447303168);
                                } else {
                                    assert(m == 237);
                                    assert(zeta(237) == 3430436 && zeta(146) == 1009365);
                                    assert(3430436 * 1009365 == 3462562033140);
                                }
                            } else {
                                if m < 239 {
                                    assert(m == 238);
                                    assert(zeta(238) == 140244 && zeta(145) == 822541);
                                    assert(140244 * 822541 == 115356440004);
                                } else {
                                    assert(m == 239);
                                    assert(zeta(239) == 6866265 && zeta(144) == 8352605);
                                    assert(6866265 * 8352605 == 57351199370325);
                                }
                            }
                        }
                    }
                } else {
                    if m < 248 {
                        if m < 244 {
                            if m < 242 {
                                if m < 241 {
                                    assert(m == 240);
                                    assert(zeta(240) == 6195333 && zeta(143) == 4663471);
                                    assert(6195333 * 4663471 == 28891755780843);
                                } else {
                                    assert(m == 241);
                                    assert(zeta(241) == 3123762 && zeta(142) == 5095502);
                                    assert(3123762 * 5095502 == 15917135518524);
                                }
                            } else {
                                if m < 243 {
                                    assert(m == 242);
                                    assert(zeta(242) == 2358373 && zeta(141) == 6084020);
                                    assert(2358373 * 6084020 == 14348388499460);
                                } else {
                                    assert(m == 243);
                                    assert(zeta(243) == 6187330 && zeta(140) == 4423672);
                                    assert(6187330 * 4423672 == 27370718475760);
                                }
                            }
                        } else {
                            if m < 246 {
                                if m < 245 {
                                    assert(m == 244);
                                    assert(zeta(244) == 5365997 && zeta(139) == 4415111);
                                    assert(5365997 * 4415111 == 23691472380667);
                                } else {
                                    assert(m == 245);
                                    assert(zeta(245) == 6663603 && zeta(138) == 636927);
                                    assert(6663603 * 636927 == 4244228667981);
                                }
                            } else {
                                if m < 247 {
                                    assert(m == 246);
                                    assert(zeta(246) == 2926054 && zeta(137) == 87208);
                                    assert(2926054 * 87208 == 255175317232);
                                } else {
                                    assert(m == 247);
                                    assert(zeta(247) == 7987710 && zeta(136) == 1182243);
                                    assert(7987710 * 1182243 == 9443414233530);
                                }
                            }
                        }
                    } else {
                        if m < 252 {
                            if m < 250 {
                                if m < 249 {
                                    assert(m == 248);
                                    assert(zeta(248) == 8077412 && zeta(135) == 2772600);
                                    assert(8077412 * 2772600 == 22395432511200);
                                } else {
                                    assert(m == 249);
                                    assert(zeta(249) == 3531229 && zeta(134) == 8321269);
                                    assert(3531229 * 8321269 == 29384306409601);
                                }
                            } else {
                                if m < 251 {
                                    assert(m == 250);
                                    assert(zeta(250) == 4405932 && zeta(133) == 6600190);
                                    assert(4405932 * 6600190 == 29079988327080);
                                } else {
                                    assert(m == 251);
                                    assert(zeta(251) == 4606686 && zeta(132) == 2660408);
                                    assert(4606686 * 2660408 == 12255664287888);
                                }
                            }
                        } else {
                            if m < 254 {
                                if m < 253 {
                                    assert(m == 252);
                                    assert(zeta(252) == 1900052 && zeta(131) == 6924527);
                                    assert(1900052 * 6924527 == 13156961375404);
                                } else {
                                    assert(m == 253);
                                    assert(zeta(253) == 7598542 && zeta(130) == 5720892);
                                    assert(7598542 * 5720892 == 43470438139464);
                                }
                            } else {
                                if m < 255 {
                                    assert(m == 254);
                                    assert(zeta(254) == 1054478 && zeta(129) == 6444997);
                                    assert(1054478 * 6444997 == 6796107546566);
                                } else {
                                    assert(m == 255);
                                    assert(zeta(255) == 7648983 && zeta(128) == 1753);
                                    assert(7648983 * 1753 == 13408667199);
                                }
                            }
                        }
                    }
                }
            }
        }
    }
}

} // verus!

verus! {

/// Forward NTT (FIPS 204, Algorithm 41), in place.
pub fn ntt(w: &mut [i32; N])
    requires
        ntt_input_ok(old(w)@),
    ensures
        ints(final(w)@) == ntt_spec(ints(old(w)@)),
        all_reduced(final(w)@),
{
    let ghost w_in = w@;
    let ghost w0 = ints(w@);
    let mut m: usize = 0;
    let mut len: usize = 128;
    let ghost mut k: int = 0;
    while len >= 1
        invariant
            0 <= k <= 8,
            len == llen(k),
            m == lbase(k) - 1,
            w@.len() == 256,
            w_in.len() == 256,
            w0 == ints(w_in),
            ntt_input_ok(w_in),
            ints(w@) == fwd(w0, k),
            k > 0 ==> all_reduced(w@),
        decreases len,
    {
        let ghost prev = ints(w@);
        let ghost lay = ntt_layer(prev, k);
        assert(k == 0 ==> prev == w0);
        let mut start: usize = 0;
        while start < N
            invariant
                0 <= k < 8,
                len == llen(k),
                w@.len() == 256,
                w_in.len() == 256,
                w0 == ints(w_in),
                ntt_input_ok(w_in),
                prev.len() == 256,
                k == 0 ==> prev == w0,
                k > 0 ==> forall|i: int| 0 <= i < 256 ==> 0 <= #[trigger] prev[i] < q(),
                lay == ntt_layer(prev, k),
                0 <= start <= 256,
                (start as int) % (2 * (len as int)) == 0,
                m == lbase(k) - 1 + (start as int) / (2 * (len as int)),
                forall|i: int| 0 <= i < start ==> #[trigger] w@[i] as int == lay[i],
                forall|i: int| 0 <= i < start ==> 0 <= #[trigger] w@[i] < q(),
                forall|i: int| start <= i < 256 ==> #[trigger] w@[i] as int == prev[i],
            decreases 256 - start,
        {
            proof {
                lemma_layer_consts(k);
                let l2 = 2 * (len as int);
                lemma_fundamental_div_mod(start as int, l2);
                let b = (start as int) / l2;
                assert(start as int == l2 * b);
                let lb = lbase(k);
                assert(b < lb) by (nonlinear_arith)
                    requires
                        start as int == l2 * b,
                        l2 * lb == 256,
                        start < 256,
                        l2 > 0;
                assert(l2 * (b + 1) <= l2 * lb) by (nonlinear_arith)
                    requires
                        b + 1 <= lb,
                        l2 > 0;
                assert(start + 2 * len <= 256) by (nonlinear_arith)
                    requires
                        start as int == l2 * b,
                        l2 * (b + 1) <= l2 * lb,
                        l2 * lb == 256,
                        l2 == 2 * len;
            }
            m += 1;
            let z = ZETAS[m] as i64;
            proof {
                lemma_zeta_facts(m as int);
            }
            let mut j = start;
            while j < start + len
                invariant
                    0 <= k < 8,
                    len == llen(k),
                    w@.len() == 256,
                    w_in.len() == 256,
                    w0 == ints(w_in),
                    ntt_input_ok(w_in),
                    prev.len() == 256,
                    k == 0 ==> prev == w0,
                    k > 0 ==> forall|i: int| 0 <= i < 256 ==> 0 <= #[trigger] prev[i] < q(),
                    lay == ntt_layer(prev, k),
                    0 <= start < 256,
                    start + 2 * len <= 256,
                    (start as int) % (2 * (len as int)) == 0,
                    m == lbase(k) + (start as int) / (2 * (len as int)),
                    z == zeta(m as int),
                    0 < z < q(),
                    start <= j <= start + len,
                    forall|i: int| 0 <= i < start ==> #[trigger] w@[i] as int == lay[i],
                    forall|i: int| 0 <= i < start ==> 0 <= #[trigger] w@[i] < q(),
                    forall|i: int| start <= i < j ==> #[trigger] w@[i] as int == lay[i],
                    forall|i: int| start + len <= i < j + len ==> #[trigger] w@[i] as int == lay[i],
                    forall|i: int| start <= i < j ==> 0 <= #[trigger] w@[i] < q(),
                    forall|i: int| start + len <= i < j + len ==> 0 <= #[trigger] w@[i] < q(),
                    forall|i: int| j <= i < start + len ==> #[trigger] w@[i] as int == prev[i],
                    forall|i: int| j + len <= i < 256 ==> #[trigger] w@[i] as int == prev[i],
                decreases start + len - j,
            {
                let c = w[j + len];
                let a = w[j];
                proof {
                    assert(-18014398509481984 <= z * c <= 18014398509481984) by (nonlinear_arith)
                        requires 0 < z < 8380417, -2147483648 <= c <= 2147483647;
                }
                let t = reduce64(z * (c as i64));
                proof {
                    if k == 0 {
                        assert(start == 0 && len == 128 && m == 1);
                        assert(w_in[j as int] as int == a);
                        assert(w_in[j + 128] as int == c);
                        assert(i32::MIN <= a - t && a + t <= i32::MAX);
                    } else {
                        assert(0 <= a < q());
                    }
                }
                w[j + len] = freeze(a - t);
                w[j] = freeze(a + t);
                proof {
                    let ji = j as int;
                    let l2 = 2 * (len as int);
                    lemma_in_block(ji, start as int, l2);
                    lemma_in_block(ji + len, start as int, l2);
                    lemma_add_mod_noop_right(a as int, z * c, q());
                    lemma_sub_mod_noop_right(a as int, z * c, q());
                    assert(w@[ji] as int == lay[ji]);
                    assert(w@[ji + len] as int == lay[ji + len]);
                }
                j += 1;
            }
            proof {
                lemma_next_block(start as int, 2 * (len as int));
            }
            start += 2 * len;
        }
        proof {
            lemma_layer_consts(k);
            assert(ints(w@) =~= lay);
            assert(fwd(w0, k + 1) == ntt_layer(fwd(w0, k), k));
        }
        len = len / 2;
        proof {
            k = k + 1;
        }
    }
    proof {
        assert(k == 8);
    }
}

} // verus!

verus! {

/// Inverse NTT (FIPS 204, Algorithm 42), in place.
pub fn invntt(w: &mut [i32; N])
    requires
        invntt_input_ok(old(w)@),
    ensures
        ints(final(w)@) == invntt_spec(ints(old(w)@)),
        all_reduced(final(w)@),
{
    let ghost w_in = w@;
    let ghost w0 = ints(w@);
    let mut m: usize = 256;
    let mut len: usize = 1;
    let ghost mut k: int = 7;
    while len < N
        invariant
            -1 <= k <= 7,
            k >= 0 ==> len == llen(k),
            k == -1 ==> len == 256,
            k >= 0 ==> m == 2 * lbase(k),
            w@.len() == 256,
            w_in.len() == 256,
            w0 == ints(w_in),
            invntt_input_ok(w_in),
            ints(w@) == bwd(w0, k + 1),
            k < 7 ==> all_reduced(w@),
        decreases 256 - len,
    {
        proof {
            if k == -1 {
                assert(false);
            }
            lemma_layer_consts(k);
        }
        let ghost prev = ints(w@);
        let ghost lay = inv_layer(prev, k);
        assert(k == 7 ==> prev == w0);
        let mut start: usize = 0;
        while start < N
            invariant
                0 <= k < 8,
                len == llen(k),
                w@.len() == 256,
                w_in.len() == 256,
                w0 == ints(w_in),
                invntt_input_ok(w_in),
                prev.len() == 256,
                k == 7 ==> prev == w0,
                k < 7 ==> forall|i: int| 0 <= i < 256 ==> 0 <= #[trigger] prev[i] < q(),
                lay == inv_layer(prev, k),
                0 <= start <= 256,
                (start as int) % (2 * (len as int)) == 0,
                m == 2 * lbase(k) - (start as int) / (2 * (len as int)),
                forall|i: int| 0 <= i < start ==> #[trigger] w@[i] as int == lay[i],
                forall|i: int| 0 <= i < start ==> 0 <= #[trigger] w@[i] < q(),
                forall|i: int| start <= i < 256 ==> #[trigger] w@[i] as int == prev[i],
            decreases 256 - start,
        {
            proof {
                lemma_layer_consts(k);
                let l2 = 2 * (len as int);
                lemma_fundamental_div_mod(start as int, l2);
                let b = (start as int) / l2;
                assert(start as int == l2 * b);
                let lb = lbase(k);
                assert(b < lb) by (nonlinear_arith)
                    requires
                        start as int == l2 * b,
                        l2 * lb == 256,
                        start < 256,
                        l2 > 0;
                assert(l2 * (b + 1) <= l2 * lb) by (nonlinear_arith)
                    requires
                        b + 1 <= lb,
                        l2 > 0;
                assert(start + 2 * len <= 256) by (nonlinear_arith)
                    requires
                        start as int == l2 * b,
                        l2 * (b + 1) <= l2 * lb,
                        l2 * lb == 256,
                        l2 == 2 * len;
                assert(b >= 0) by (nonlinear_arith)
                    requires start as int == l2 * b, start >= 0, l2 > 0;
            }
            m -= 1;
            proof {
                lemma_zeta_facts(m as int);
            }
            let z = reduce64(-(ZETAS[m] as i64)) as i64;
            proof {
                vstd::arithmetic::div_mod::lemma_mod_add_multiples_vanish(-zeta(m as int), q());
                vstd::arithmetic::div_mod::lemma_small_mod((q() - zeta(m as int)) as nat, q() as nat);
                assert(z == q() - zeta(m as int));
            }
            let mut j = start;
            while j < start + len
                invariant
                    0 <= k < 8,
                    len == llen(k),
                    w@.len() == 256,
                    w_in.len() == 256,
                    w0 == ints(w_in),
                    invntt_input_ok(w_in),
                    prev.len() == 256,
                    k == 7 ==> prev == w0,
                    k < 7 ==> forall|i: int| 0 <= i < 256 ==> 0 <= #[trigger] prev[i] < q(),
                    lay == inv_layer(prev, k),
                    0 <= start < 256,
                    start + 2 * len <= 256,
                    (start as int) % (2 * (len as int)) == 0,
                    m == 2 * lbase(k) - 1 - (start as int) / (2 * (len as int)),
                    z == q() - zeta(m as int),
                    0 < z < q(),
                    start <= j <= start + len,
                    forall|i: int| 0 <= i < start ==> #[trigger] w@[i] as int == lay[i],
                    forall|i: int| 0 <= i < start ==> 0 <= #[trigger] w@[i] < q(),
                    forall|i: int| start <= i < j ==> #[trigger] w@[i] as int == lay[i],
                    forall|i: int| start + len <= i < j + len ==> #[trigger] w@[i] as int == lay[i],
                    forall|i: int| start <= i < j ==> 0 <= #[trigger] w@[i] < q(),
                    forall|i: int| start + len <= i < j + len ==> 0 <= #[trigger] w@[i] < q(),
                    forall|i: int| j <= i < start + len ==> #[trigger] w@[i] as int == prev[i],
                    forall|i: int| j + len <= i < 256 ==> #[trigger] w@[i] as int == prev[i],
                decreases start + len - j,
            {
                let t = w[j];
                let u = w[j + len];
                proof {
                    if k == 7 {
                        assert(len == 1);
                        let jj = (j as int) / 2;
                        assert(j as int == 2 * jj) by {
                            lemma_fundamental_div_mod(start as int, 2);
                        }
                        assert(w_in[2 * jj] as int == t);
                        assert(w_in[2 * jj + 1] as int == u);
                        assert(i32::MIN <= t + u <= i32::MAX && i32::MIN <= t - u <= i32::MAX);
                    } else {
                        assert(0 <= t < q() && 0 <= u < q());
                    }
                }
                w[j] = freeze(t + u);
                let v = freeze(t - u);
                proof {
                    assert(0 <= z * v < 70368744177664) by (nonlinear_arith)
                        requires 0 < z < 8380417, 0 <= v < 8380417;
                }
                w[j + len] = reduce64(z * (v as i64));
                proof {
                    let ji = j as int;
                    let l2 = 2 * (len as int);
                    lemma_in_block(ji, start as int, l2);
                    lemma_in_block(ji + len, start as int, l2);
                    lemma_mul_mod_noop_right(z as int, t - u, q());
                    assert(w@[ji] as int == lay[ji]);
                    assert(w@[ji + len] as int == lay[ji + len]);
                }
                j += 1;
            }
            proof {
                lemma_next_block(start as int, 2 * (len as int));
            }
            start += 2 * len;
        }
        proof {
            lemma_layer_consts(k);
            assert(ints(w@) =~= lay);
            assert(bwd(w0, k) == inv_layer(bwd(w0, k + 1), k));
        }
        len = len * 2;
        proof {
            k = k - 1;
        }
    }
    proof {
        assert(k == -1);
    }
    let ghost pre = ints(w@);
    let f: i64 = 8347681;
    let mut j: usize = 0;
    while j < N
        invariant
            w@.len() == 256,
            pre.len() == 256,
            pre == bwd(w0, 0),
            f == 8347681,
            0 <= j <= 256,
            forall|i: int| 0 <= i < j ==> #[trigger] w@[i] as int == (8347681 * pre[i]) % q(),
            forall|i: int| 0 <= i < j ==> 0 <= #[trigger] w@[i] < q(),
            forall|i: int| j <= i < 256 ==> #[trigger] w@[i] as int == pre[i],
            forall|i: int| 0 <= i < 256 ==> 0 <= #[trigger] pre[i] < q(),
        decreases 256 - j,
    {
        let c = w[j];
        proof {
            assert(0 <= f * c < 70368744177664) by (nonlinear_arith)
                requires f == 8347681, 0 <= c < 8380417;
        }
        w[j] = reduce64(f * (c as i64));
        j += 1;
    }
    proof {
        assert(ints(w@) =~= invntt_spec(w0));
    }
}

} // verus!

verus! {

/// Coefficient-wise multiplication by c modulo q.
pub open spec fn scale(v: Seq<int>, c: int) -> Seq<int> {
    Seq::new(256, |i: int| (c * v[i]) % q())
}

/// A sequence of 256 canonical residues.
pub open spec fn reduced(v: Seq<int>) -> bool {
    v.len() == 256 && forall|i: int| 0 <= i < 256 ==> 0 <= #[trigger] v[i] < q()
}

spec fn p2(n: int) -> int
    decreases n,
{
    if n <= 0 { 1 } else { 2 * p2(n - 1) }
}

proof fn lemma_layers_reduced(v: Seq<int>, k: int)
    ensures
        reduced(ntt_layer(v, k)),
        reduced(inv_layer(v, k)),
        reduced(scale(v, k)),
{
}

proof fn lemma_fwd_reduced(w: Seq<int>, k: int)
    requires
        reduced(w),
        0 <= k,
    ensures
        reduced(fwd(w, k)),
    decreases k,
{
    if k > 0 {
        lemma_fwd_reduced(w, k - 1);
        lemma_layers_reduced(fwd(w, k - 1), k - 1);
    }
}

/// Position of i inside its block of layer k.
proof fn lemma_block_of(i: int, k: int)
    requires
        0 <= k < 8,
        0 <= i < 256,
    ensures
        ({
            let len = llen(k);
            let b = i / (2 * len);
            &&& 0 <= b < lbase(k)
            &&& i % (2 * len) < len ==> i + len < 256 && (i + len) / (2 * len) == b
                && (i + len) % (2 * len) == i % (2 * len) + len
            &&& i % (2 * len) >= len ==> i - len >= 0 && (i - len) / (2 * len) == b
                && (i - len) % (2 * len) == i % (2 * len) - len
        }),
{
    lemma_layer_consts(k);
    let len = llen(k);
    let l2 = 2 * len;
    lemma_fundamental_div_mod(i, l2);
    let b = i / l2;
    let r = i % l2;
    let lb = lbase(k);
    assert(0 <= b < lb) by (nonlinear_arith)
        requires i == l2 * b + r, 0 <= r < l2, 0 <= i < 256, l2 * lb == 256, l2 > 0;
    assert(b * l2 == l2 * b) by (nonlinear_arith);
    if r < len {
        assert(i + len == b * l2 + (r + len));
        lemma_fundamental_div_mod_converse(i + len, l2, b, r + len);
        assert(l2 * b + l2 <= l2 * lb) by (nonlinear_arith)
            requires b + 1 <= lb, l2 > 0;
    } else {
        assert(i - len == b * l2 + (r - len));
        lemma_fundamental_div_mod_converse(i - len, l2, b, r - len);
    }
}

/// An inverse layer undoes the forward layer with the same index, up to a factor 2.
proof fn lemma_layer_inverse(v: Seq<int>, k: int)
    requires
        reduced(v),
        0 <= k < 8,
    ensures
        inv_layer(ntt_layer(v, k), k) == scale(v, 2),
{
    let f = ntt_layer(v, k);
    let g = inv_layer(f, k);
    assert forall|i: int| 0 <= i < 256 implies #[trigger] g[i] == scale(v, 2)[i] by {
        lemma_block_of(i, k);
        lemma_layer_consts(k);
        let len = llen(k);
        let b = i / (2 * len);
        let z = zeta(lbase(k) + b);
        lemma_zeta_facts(lbase(k) + b);
        assert(zeta_partner(lbase(k) + b) == 2 * lbase(k) - 1 - b) by {
            if k == 0 {} else if k == 1 {} else if k == 2 {} else if k == 3 {}
            else if k == 4 {} else if k == 5 {} else if k == 6 {} else {}
        }
        let zp = zeta(2 * lbase(k) - 1 - b);
        if i % (2 * len) < len {
            let x = v[i] + z * v[i + len];
            let y = v[i] - z * v[i + len];
            assert(f[i] == x % q());
            assert(f[i + len] == y % q());
            assert(g[i] == (f[i] + f[i + len]) % q());
            vstd::arithmetic::div_mod::lemma_add_mod_noop(x, y, q());
            assert(x + y == 2 * v[i]);
        } else {
            let x = v[i - len] + z * v[i];
            let y = v[i - len] - z * v[i];
            assert(f[i - len] == x % q());
            assert(f[i] == y % q());
            let zi = q() - zp;
            assert(g[i] == (zi * (f[i - len] - f[i])) % q());
            vstd::arithmetic::div_mod::lemma_sub_mod_noop(x, y, q());
            lemma_mul_mod_noop_right(zi, f[i - len] - f[i], q());
            lemma_mul_mod_noop_right(zi, x - y, q());
            assert(x - y == 2 * z * v[i]) by (nonlinear_arith)
                requires x == v[i - len] + z * v[i], y == v[i - len] - z * v[i];
            let n = (z * zp) / q();
            lemma_fundamental_div_mod(z * zp, q());
            assert(z * zp == q() * n + (q() - 1));
            let vi = v[i];
            assert(zi * (x - y) == 2 * vi + q() * (2 * z * vi - 2 * vi - 2 * vi * n)) by (nonlinear_arith)
                requires
                    zi == q() - zp,
                    x - y == 2 * z * vi,
                    z * zp == q() * n + (q() - 1);
            vstd::arithmetic::div_mod::lemma_mod_multiples_vanish(
                2 * z * vi - 2 * vi - 2 * vi * n, 2 * vi, q());
        }
    }
    assert(g =~= scale(v, 2));
}

/// Inverse layers commute with scaling.
proof fn lemma_layer_scale(v: Seq<int>, c: int, k: int)
    requires
        v.len() == 256,
        0 <= k < 8,
    ensures
        inv_layer(scale(v, c), k) == scale(inv_layer(v, k), c),
{
    let s = scale(v, c);
    let g = inv_layer(s, k);
    let h = scale(inv_layer(v, k), c);
    assert forall|i: int| 0 <= i < 256 implies #[trigger] g[i] == h[i] by {
        lemma_block_of(i, k);
        let len = llen(k);
        let b = i / (2 * len);
        let zi = q() - zeta(2 * lbase(k) - 1 - b);
        if i % (2 * len) < len {
            let a = v[i];
            let d = v[i + len];
            vstd::arithmetic::div_mod::lemma_add_mod_noop(c * a, c * d, q());
            lemma_mul_mod_noop_right(c, a + d, q());
            assert(c * a + c * d == c * (a + d)) by (nonlinear_arith);
        } else {
            let a = v[i - len];
            let d = v[i];
            vstd::arithmetic::div_mod::lemma_sub_mod_noop(c * a, c * d, q());
            lemma_mul_mod_noop_right(zi, (c * a) % q() - (c * d) % q(), q());
            lemma_mul_mod_noop_right(zi, c * a - c * d, q());
            lemma_mul_mod_noop_right(c, zi * (a - d), q());
            assert(zi * (c * a - c * d) == c * (zi * (a - d))) by (nonlinear_arith);
        }
    }
    assert(g =~= h);
}

proof fn lemma_bwd_scale(v: Seq<int>, c: int, k: int)
    requires
        v.len() == 256,
        0 <= k <= 8,
    ensures
        bwd(scale(v, c), k) == scale(bwd(v, k), c),
    decreases 8 - k,
{
    if k < 8 {
        lemma_bwd_scale(v, c, k + 1);
        lemma_layers_reduced(bwd(v, k + 1), k);
        lemma_layer_scale(bwd(v, k + 1), c, k);
    }
}

proof fn lemma_scale_scale(v: Seq<int>, c: int, d: int)
    requires
        v.len() == 256,
    ensures
        scale(scale(v, c), d) == scale(v, c * d),
{
    assert forall|i: int| 0 <= i < 256 implies #[trigger] scale(scale(v, c), d)[i] == scale(v, c * d)[i] by {
        lemma_mul_mod_noop_right(d, c * v[i], q());
        assert(d * (c * v[i]) == (c * d) * v[i]) by (nonlinear_arith);
    }
    assert(scale(scale(v, c), d) =~= scale(v, c * d));
}

proof fn lemma_roundtrip_from(w: Seq<int>, k: int)
    requires
        reduced(w),
        0 <= k <= 8,
    ensures
        bwd(fwd(w, 8), k) == scale(fwd(w, k), p2(8 - k)),
    decreases 8 - k,
{
    lemma_fwd_reduced(w, k);
    if k == 8 {
        let x = fwd(w, 8);
        assert(p2(0) == 1);
        assert forall|i: int| 0 <= i < 256 implies #[trigger] scale(x, 1)[i] == x[i] by {
            vstd::arithmetic::div_mod::lemma_small_mod(x[i] as nat, q() as nat);
        }
        assert(scale(x, 1) =~= x);
    } else {
        lemma_roundtrip_from(w, k + 1);
        let c = p2(7 - k);
        let x = fwd(w, k);
        assert(fwd(w, k + 1) == ntt_layer(x, k));
        // bwd(fwd(w, 8), k) = inv_layer(scale(ntt_layer(x, k), c), k)
        lemma_layers_reduced(x, k);
        lemma_layer_scale(ntt_layer(x, k), c, k);
        lemma_layer_inverse(x, k);
        lemma_scale_scale(x, 2, c);
        assert(p2(8 - k) == 2 * p2(7 - k));
    }
}

/// The inverse NTT undoes the forward NTT on canonical inputs.
pub proof fn lemma_ntt_roundtrip(w: Seq<int>)
    requires
        reduced(w),
    ensures
        invntt_spec(ntt_spec(w)) == w,
{
    lemma_roundtrip_from(w, 0);
    reveal_with_fuel(p2, 9);
    assert(p2(8) == 256);
    let x = ntt_spec(w);
    assert(bwd(x, 0) == scale(w, 256));
    lemma_scale_scale(w, 256, 8347681);
    assert(invntt_spec(x) =~= scale(scale(w, 256), 8347681));
    assert forall|i: int| 0 <= i < 256 implies #[trigger] scale(w, 256int * 8347681)[i] == w[i] by {
        assert(256 * 8347681 == 1 + 255 * q());
        assert((256 * 8347681) * w[i] == w[i] + q() * (255 * w[i])) by (nonlinear_arith);
        vstd::arithmetic::div_mod::lemma_mod_multiples_vanish(255 * w[i], w[i], q());
        vstd::arithmetic::div_mod::lemma_small_mod(w[i] as nat, q() as nat);
    }
    assert(scale(w, 256int * 8347681) =~= w);
}

} // verus!

verus! {

/// Coefficients of magnitude at most 2^30 are valid NTT inputs.
pub proof fn lemma_ntt_input_small(w: Seq<i32>)
    requires
        w.len() == 256,
        forall|i: int| 0 <= i < 256 ==> -1073741824 <= #[trigger] w[i] <= 1073741824,
    ensures
        ntt_input_ok(w),
{
    assert(ntt_input_ok(w)) by {
        assert forall|j: int| 0 <= j < 128 implies ({
            let t = (zeta(1) * w[j + 128]) % q();
            i32::MIN <= #[trigger] w[j] - t && w[j] + t <= i32::MAX
        }) by {
            assert(-1073741824 <= w[j] <= 1073741824);
        }
    }
}

/// Coefficients of magnitude at most 2^29 are valid inverse NTT inputs.
pub proof fn lemma_invntt_input_small(w: Seq<i32>)
    requires
        w.len() == 256,
        forall|i: int| 0 <= i < 256 ==> -536870912 <= #[trigger] w[i] <= 536870912,
    ensures
        invntt_input_ok(w),
{
    assert forall|j: int| 0 <= j < 128 implies
        i32::MIN <= #[trigger] w[2 * j] + w[2 * j + 1] <= i32::MAX
        && i32::MIN <= w[2 * j] - w[2 * j + 1] <= i32::MAX by {
        assert(-536870912 <= w[2 * j] <= 536870912);
        assert(-536870912 <= w[2 * j + 1] <= 536870912);
    }
}

} // verus!

verus! {

/// Two sequences of 256 integers agree modulo q at every position.
pub open spec fn congruent(a: Seq<int>, b: Seq<int>) -> bool {
    forall|i: int| #![trigger a[i], b[i]] 0 <= i < 256 ==> a[i] % q() == b[i] % q()
}

/// Linear forms agree modulo q on arguments that agree modulo q.
proof fn lemma_lin_mod(x1: int, x2: int, y1: int, y2: int, z: int)
    requires
        x1 % q() == y1 % q(),
        x2 % q() == y2 % q(),
    ensures
        (x1 + z * x2) % q() == (y1 + z * y2) % q(),
        (x1 - z * x2) % q() == (y1 - z * y2) % q(),
        (x1 + x2) % q() == (y1 + y2) % q(),
        (z * (x1 - x2)) % q() == (z * (y1 - y2)) % q(),
{
    lemma_fundamental_div_mod(x1, q());
    lemma_fundamental_div_mod(x2, q());
    lemma_fundamental_div_mod(y1, q());
    lemma_fundamental_div_mod(y2, q());
    let t1 = x1 / q() - y1 / q();
    let t2 = x2 / q() - y2 / q();
    assert(x1 == y1 + q() * t1) by (nonlinear_arith)
        requires x1 == q() * (x1 / q()) + x1 % q(), y1 == q() * (y1 / q()) + y1 % q(),
            x1 % q() == y1 % q(), t1 == x1 / q() - y1 / q();
    assert(x2 == y2 + q() * t2) by (nonlinear_arith)
        requires x2 == q() * (x2 / q()) + x2 % q(), y2 == q() * (y2 / q()) + y2 % q(),
            x2 % q() == y2 % q(), t2 == x2 / q() - y2 / q();
    assert(x1 + z * x2 == (y1 + z * y2) + q() * (t1 + z * t2)) by (nonlinear_arith)
        requires x1 == y1 + q() * t1, x2 == y2 + q() * t2;
    assert(x1 - z * x2 == (y1 - z * y2) + q() * (t1 - z * t2)) by (nonlinear_arith)
        requires x1 == y1 + q() * t1, x2 == y2 + q() * t2;
    assert(z * (x1 - x2) == z * (y1 - y2) + q() * (z * t1 - z * t2)) by (nonlinear_arith)
        requires x1 == y1 + q() * t1, x2 == y2 + q() * t2;
    vstd::arithmetic::div_mod::lemma_mod_multiples_vanish(t1 + z * t2, y1 + z * y2, q());
    vstd::arithmetic::div_mod::lemma_mod_multiples_vanish(t1 - z * t2, y1 - z * y2, q());
    vstd::arithmetic::div_mod::lemma_mod_multiples_vanish(t1 + t2, y1 + y2, q());
    vstd::arithmetic::div_mod::lemma_mod_multiples_vanish(z * t1 - z * t2, z * (y1 - y2), q());
}

/// A forward layer only depends on its input modulo q.
proof fn lemma_layer_congruent(a: Seq<int>, b: Seq<int>, k: int)
    requires
        congruent(a, b),
        0 <= k < 8,
    ensures
        ntt_layer(a, k) == ntt_layer(b, k),
        inv_layer(a, k) == inv_layer(b, k),
{
    assert forall|i: int| #![trigger ntt_layer(a, k)[i]] #![trigger inv_layer(a, k)[i]]
        0 <= i < 256 implies ntt_layer(a, k)[i] == ntt_layer(b, k)[i]
        && inv_layer(a, k)[i] == inv_layer(b, k)[i] by {
        lemma_block_of(i, k);
        let len = llen(k);
        let b_ = i / (2 * len);
        let z = zeta(lbase(k) + b_);
        let zi = q() - zeta(2 * lbase(k) - 1 - b_);
        if i % (2 * len) < len {
            lemma_lin_mod(a[i], a[i + len], b[i], b[i + len], z);
        } else {
            lemma_lin_mod(a[i - len], a[i], b[i - len], b[i], z);
            lemma_lin_mod(a[i - len], a[i], b[i - len], b[i], zi);
        }
    }
    assert(ntt_layer(a, k) =~= ntt_layer(b, k));
    assert(inv_layer(a, k) =~= inv_layer(b, k));
}

/// Coefficient-wise sum of two sequences, not reduced.
pub open spec fn plain_sum(a: Seq<int>, b: Seq<int>) -> Seq<int> {
    Seq::new(256, |i: int| a[i] + b[i])
}

/// A forward or inverse layer of a sum is the sum of the layers, modulo q.
proof fn lemma_layer_additive(a: Seq<int>, b: Seq<int>, k: int)
    requires
        0 <= k < 8,
    ensures
        congruent(ntt_layer(plain_sum(a, b), k), plain_sum(ntt_layer(a, k), ntt_layer(b, k))),
        congruent(inv_layer(plain_sum(a, b), k), plain_sum(inv_layer(a, k), inv_layer(b, k))),
{
    let s = plain_sum(a, b);
    assert forall|i: int| #![trigger ntt_layer(s, k)[i]] #![trigger inv_layer(s, k)[i]] 0 <= i < 256 implies
        ntt_layer(s, k)[i] % q() == plain_sum(ntt_layer(a, k), ntt_layer(b, k))[i] % q()
        && inv_layer(s, k)[i] % q() == plain_sum(inv_layer(a, k), inv_layer(b, k))[i] % q() by {
        lemma_block_of(i, k);
        let len = llen(k);
        let b_ = i / (2 * len);
        let z = zeta(lbase(k) + b_);
        let zi = q() - zeta(2 * lbase(k) - 1 - b_);
        if i % (2 * len) < len {
            let (p, r) = (i, i + len);
            let fa = a[p] + z * a[r];
            let fb = b[p] + z * b[r];
            assert(s[p] + z * s[r] == fa + fb) by (nonlinear_arith)
                requires s[p] == a[p] + b[p], s[r] == a[r] + b[r], fa == a[p] + z * a[r], fb == b[p] + z * b[r];
            vstd::arithmetic::div_mod::lemma_add_mod_noop(fa, fb, q());
            vstd::arithmetic::div_mod::lemma_mod_twice(fa + fb, q());
            let ga = a[p] + a[r];
            let gb = b[p] + b[r];
            vstd::arithmetic::div_mod::lemma_add_mod_noop(ga, gb, q());
            vstd::arithmetic::div_mod::lemma_mod_twice(ga + gb, q());
        } else {
            let (p, r) = (i - len, i);
            let fa = a[p] - z * a[r];
            let fb = b[p] - z * b[r];
            assert(s[p] - z * s[r] == fa + fb) by (nonlinear_arith)
                requires s[p] == a[p] + b[p], s[r] == a[r] + b[r], fa == a[p] - z * a[r], fb == b[p] - z * b[r];
            vstd::arithmetic::div_mod::lemma_add_mod_noop(fa, fb, q());
            vstd::arithmetic::div_mod::lemma_mod_twice(fa + fb, q());
            let ga = zi * (a[p] - a[r]);
            let gb = zi * (b[p] - b[r]);
            assert(zi * (s[p] - s[r]) == ga + gb) by (nonlinear_arith)
                requires s[p] == a[p] + b[p], s[r] == a[r] + b[r], ga == zi * (a[p] - a[r]), gb == zi * (b[p] - b[r]);
            vstd::arithmetic::div_mod::lemma_add_mod_noop(ga, gb, q());
            vstd::arithmetic::div_mod::lemma_mod_twice(ga + gb, q());
        }
    }
}

} // verus!

verus! {

proof fn lemma_fwd_congruent(a: Seq<int>, b: Seq<int>, k: int)
    requires
        congruent(a, b),
        1 <= k <= 8,
    ensures
        fwd(a, k) == fwd(b, k),
    decreases k,
{
    if k == 1 {
        assert(fwd(a, 0) == a && fwd(b, 0) == b);
        lemma_layer_congruent(a, b, 0);
    } else {
        lemma_fwd_congruent(a, b, k - 1);
    }
}

proof fn lemma_bwd_congruent(a: Seq<int>, b: Seq<int>, k: int)
    requires
        congruent(a, b),
        0 <= k < 8,
    ensures
        bwd(a, k) == bwd(b, k),
    decreases 8 - k,
{
    if k == 7 {
        assert(bwd(a, 8) == a && bwd(b, 8) == b);
        lemma_layer_congruent(a, b, 7);
    } else {
        lemma_bwd_congruent(a, b, k + 1);
    }
}

proof fn lemma_congruent_refl(a: Seq<int>)
    ensures
        congruent(a, a),
{
}

proof fn lemma_fwd_additive(a: Seq<int>, b: Seq<int>, k: int)
    requires
        0 <= k <= 8,
    ensures
        congruent(fwd(plain_sum(a, b), k), plain_sum(fwd(a, k), fwd(b, k))),
    decreases k,
{
    let s = plain_sum(a, b);
    if k == 0 {
        assert(plain_sum(fwd(a, 0), fwd(b, 0)) =~= s);
        lemma_congruent_refl(s);
    } else {
        lemma_fwd_additive(a, b, k - 1);
        let fa = fwd(a, k - 1);
        let fb = fwd(b, k - 1);
        lemma_layer_congruent(fwd(s, k - 1), plain_sum(fa, fb), k - 1);
        lemma_layer_additive(fa, fb, k - 1);
    }
}

proof fn lemma_bwd_additive(a: Seq<int>, b: Seq<int>, k: int)
    requires
        0 <= k <= 8,
    ensures
        congruent(bwd(plain_sum(a, b), k), plain_sum(bwd(a, k), bwd(b, k))),
    decreases 8 - k,
{
    let s = plain_sum(a, b);
    if k == 8 {
        assert(plain_sum(bwd(a, 8), bwd(b, 8)) =~= s);
        lemma_congruent_refl(s);
    } else {
        lemma_bwd_additive(a, b, k + 1);
        let fa = bwd(a, k + 1);
        let fb = bwd(b, k + 1);
        lemma_layer_congruent(bwd(s, k + 1), plain_sum(fa, fb), k);
        lemma_layer_additive(fa, fb, k);
    }
}

/// The forward NTT only depends on its input modulo q.
pub proof fn lemma_ntt_congruent(a: Seq<int>, b: Seq<int>)
    requires
        congruent(a, b),
    ensures
        ntt_spec(a) == ntt_spec(b),
{
    lemma_fwd_congruent(a, b, 8);
}

/// The inverse NTT only depends on its input modulo q.
pub proof fn lemma_invntt_congruent(a: Seq<int>, b: Seq<int>)
    requires
        congruent(a, b),
    ensures
        invntt_spec(a) == invntt_spec(b),
{
    lemma_bwd_congruent(a, b, 0);
    assert(invntt_spec(a) =~= invntt_spec(b));
}

/// Reducing the input modulo q does not change its forward or inverse NTT.
pub proof fn lemma_ntt_of_reduced(a: Seq<int>)
    ensures
        ntt_spec(crate::polynomial::reduce_spec(a)) == ntt_spec(a),
        invntt_spec(crate::polynomial::reduce_spec(a)) == invntt_spec(a),
{
    let r = crate::polynomial::reduce_spec(a);
    assert forall|i: int| #![trigger r[i], a[i]] 0 <= i < 256 implies r[i] % q() == a[i] % q() by {
        vstd::arithmetic::div_mod::lemma_mod_twice(a[i], q());
    }
    lemma_ntt_congruent(r, a);
    lemma_invntt_congruent(r, a);
}

/// The forward NTT is additive modulo q: NTT(a + b) = NTT(a) + NTT(b).
pub proof fn lemma_ntt_additive(a: Seq<int>, b: Seq<int>)
    ensures
        ntt_spec(crate::polynomial::add_spec(a, b))
            == crate::polynomial::add_spec(ntt_spec(a), ntt_spec(b)),
{
    let s = crate::polynomial::add_spec(a, b);
    let p = plain_sum(a, b);
    assert forall|i: int| #![trigger s[i], p[i]] 0 <= i < 256 implies s[i] % q() == p[i] % q() by {
        vstd::arithmetic::div_mod::lemma_mod_twice(p[i], q());
    }
    lemma_ntt_congruent(s, p);
    lemma_fwd_additive(a, b, 8);
    let x = ntt_spec(p);
    let y = crate::polynomial::add_spec(ntt_spec(a), ntt_spec(b));
    lemma_layers_reduced(fwd(p, 7), 7);
    assert forall|i: int| 0 <= i < 256 implies #[trigger] x[i] == y[i] by {
        assert(x[i] % q() == plain_sum(ntt_spec(a), ntt_spec(b))[i] % q());
        vstd::arithmetic::div_mod::lemma_small_mod(x[i] as nat, q() as nat);
    }
    assert(x =~= y);
}

/// The inverse NTT is additive modulo q.
pub proof fn lemma_invntt_additive(a: Seq<int>, b: Seq<int>)
    ensures
        invntt_spec(crate::polynomial::add_spec(a, b))
            == crate::polynomial::add_spec(invntt_spec(a), invntt_spec(b)),
{
    let s = crate::polynomial::add_spec(a, b);
    let p = plain_sum(a, b);
    assert forall|i: int| #![trigger s[i], p[i]] 0 <= i < 256 implies s[i] % q() == p[i] % q() by {
        vstd::arithmetic::div_mod::lemma_mod_twice(p[i], q());
    }
    lemma_invntt_congruent(s, p);
    lemma_bwd_additive(a, b, 0);
    let x = invntt_spec(p);
    let y = crate::polynomial::add_spec(invntt_spec(a), invntt_spec(b));
    assert forall|i: int| 0 <= i < 256 implies #[trigger] x[i] == y[i] by {
        let f = 8347681int;
        let bs = bwd(p, 0)[i];
        let ba = bwd(a, 0)[i];
        let bb = bwd(b, 0)[i];
        assert(plain_sum(bwd(a, 0), bwd(b, 0))[i] == ba + bb);
        assert(bs % q() == (ba + bb) % q());
        lemma_lin_mod(bs, 0, ba + bb, 0, f);
        assert(f * (ba + bb) == f * ba + f * bb) by (nonlinear_arith);
        vstd::arithmetic::div_mod::lemma_add_mod_noop(f * ba, f * bb, q());
    }
    assert(x =~= y);
}

} // verus!

verus! {

/// A forward layer undoes the inverse layer with the same index, up to a factor 2.
#[verifier::spinoff_prover]
proof fn lemma_layer_inverse_rev(v: Seq<int>, k: int)
    requires
        reduced(v),
        0 <= k < 8,
    ensures
        ntt_layer(inv_layer(v, k), k) == scale(v, 2),
{
    let g = inv_layer(v, k);
    let f = ntt_layer(g, k);
    assert forall|i: int| 0 <= i < 256 implies #[trigger] f[i] == scale(v, 2)[i] by {
        lemma_block_of(i, k);
        lemma_layer_consts(k);
        let len = llen(k);
        let b = i / (2 * len);
        let z = zeta(lbase(k) + b);
        lemma_zeta_facts(lbase(k) + b);
        assert(zeta_partner(lbase(k) + b) == 2 * lbase(k) - 1 - b) by {
            if k == 0 {} else if k == 1 {} else if k == 2 {} else if k == 3 {}
            else if k == 4 {} else if k == 5 {} else if k == 6 {} else {}
        }
        let zp = zeta(2 * lbase(k) - 1 - b);
        let zi = q() - zp;
        let n = (z * zp) / q();
        lemma_fundamental_div_mod(z * zp, q());
        assert(z * zp == q() * n + (q() - 1));
        if i % (2 * len) < len {
            let a = v[i];
            let c = v[i + len];
            assert(g[i] == (a + c) % q());
            assert(g[i + len] == (zi * (a - c)) % q());
            vstd::arithmetic::div_mod::lemma_mod_twice(a + c, q());
            vstd::arithmetic::div_mod::lemma_mod_twice(zi * (a - c), q());
            lemma_lin_mod(g[i], g[i + len], a + c, zi * (a - c), z);
            assert(f[i] == (g[i] + z * g[i + len]) % q());
            assert(a + c + z * (zi * (a - c)) == 2 * a + q() * ((z - n - 1) * (a - c))) by (nonlinear_arith)
                requires zi == q() - zp, z * zp == q() * n + (q() - 1);
            vstd::arithmetic::div_mod::lemma_mod_multiples_vanish((z - n - 1) * (a - c), 2 * a, q());
        } else {
            let a = v[i - len];
            let c = v[i];
            assert(g[i - len] == (a + c) % q());
            assert(g[i] == (zi * (a - c)) % q());
            vstd::arithmetic::div_mod::lemma_mod_twice(a + c, q());
            vstd::arithmetic::div_mod::lemma_mod_twice(zi * (a - c), q());
            lemma_lin_mod(g[i - len], g[i], a + c, zi * (a - c), z);
            assert(f[i] == (g[i - len] - z * g[i]) % q());
            assert(a + c - z * (zi * (a - c)) == 2 * c + q() * (-(z - n - 1) * (a - c))) by (nonlinear_arith)
                requires zi == q() - zp, z * zp == q() * n + (q() - 1);
            vstd::arithmetic::div_mod::lemma_mod_multiples_vanish(-(z - n - 1) * (a - c), 2 * c, q());
        }
    }
    assert(f =~= scale(v, 2));
}

/// Forward layers commute with scaling.
#[verifier::spinoff_prover]
proof fn lemma_fwd_layer_scale(v: Seq<int>, c: int, k: int)
    requires
        v.len() == 256,
        0 <= k < 8,
    ensures
        ntt_layer(scale(v, c), k) == scale(ntt_layer(v, k), c),
{
    let s = scale(v, c);
    let g = ntt_layer(s, k);
    let h = scale(ntt_layer(v, k), c);
    assert forall|i: int| 0 <= i < 256 implies #[trigger] g[i] == h[i] by {
        lemma_block_of(i, k);
        let len = llen(k);
        let b = i / (2 * len);
        let z = zeta(lbase(k) + b);
        if i % (2 * len) < len {
            let a = v[i];
            let d = v[i + len];
            vstd::arithmetic::div_mod::lemma_mod_twice(c * a, q());
            vstd::arithmetic::div_mod::lemma_mod_twice(c * d, q());
            lemma_lin_mod(s[i], s[i + len], c * a, c * d, z);
            lemma_mul_mod_noop_right(c, a + z * d, q());
            assert(c * a + z * (c * d) == c * (a + z * d)) by (nonlinear_arith);
        } else {
            let a = v[i - len];
            let d = v[i];
            vstd::arithmetic::div_mod::lemma_mod_twice(c * a, q());
            vstd::arithmetic::div_mod::lemma_mod_twice(c * d, q());
            lemma_lin_mod(s[i - len], s[i], c * a, c * d, z);
            lemma_mul_mod_noop_right(c, a - z * d, q());
            assert(c * a - z * (c * d) == c * (a - z * d)) by (nonlinear_arith);
        }
    }
    assert(g =~= h);
}

/// The forward layers k, k+1, ..., 7 applied to w.
pub open spec fn fwd_rest(w: Seq<int>, k: int) -> Seq<int>
    decreases 8 - k,
{
    if k >= 8 { w } else { fwd_rest(ntt_layer(w, k), k + 1) }
}

/// Applying the first k layers and then the rest is the whole transform.
proof fn lemma_fwd_split(w: Seq<int>, k: int)
    requires
        0 <= k <= 8,
    ensures
        fwd_rest(fwd(w, k), k) == ntt_spec(w),
    decreases 8 - k,
{
    if k < 8 {
        lemma_fwd_split(w, k + 1);
        assert(fwd(w, k + 1) == ntt_layer(fwd(w, k), k));
    }
}

/// The remaining forward layers commute with scaling.
proof fn lemma_fwd_rest_scale(v: Seq<int>, c: int, k: int)
    requires
        v.len() == 256,
        0 <= k <= 8,
    ensures
        fwd_rest(scale(v, c), k) == scale(fwd_rest(v, k), c),
    decreases 8 - k,
{
    if k < 8 {
        lemma_fwd_layer_scale(v, c, k);
        lemma_layers_reduced(v, k);
        lemma_fwd_rest_scale(ntt_layer(v, k), c, k + 1);
    }
}

proof fn lemma_fwd_rest_len(v: Seq<int>, k: int)
    requires
        v.len() == 256,
        0 <= k <= 8,
    ensures
        fwd_rest(v, k).len() == 256,
    decreases 8 - k,
{
    if k < 8 {
        lemma_layers_reduced(v, k);
        lemma_fwd_rest_len(ntt_layer(v, k), k + 1);
    }
}

proof fn lemma_bwd_reduced(w: Seq<int>, k: int)
    requires
        reduced(w),
        0 <= k <= 8,
    ensures
        reduced(bwd(w, k)),
    decreases 8 - k,
{
    if k < 8 {
        lemma_bwd_reduced(w, k + 1);
        lemma_layers_reduced(bwd(w, k + 1), k);
    }
}

#[verifier::spinoff_prover]
proof fn lemma_rev_roundtrip_from(x: Seq<int>, k: int)
    requires
        reduced(x),
        0 <= k <= 8,
    ensures
        fwd_rest(bwd(x, k), k) == scale(x, p2(8 - k)),
    decreases 8 - k,
{
    if k == 8 {
        assert(p2(0) == 1);
        assert forall|i: int| 0 <= i < 256 implies #[trigger] scale(x, 1)[i] == x[i] by {
            vstd::arithmetic::div_mod::lemma_small_mod(x[i] as nat, q() as nat);
        }
        assert(scale(x, 1) =~= x);
    } else {
        lemma_rev_roundtrip_from(x, k + 1);
        let bb = bwd(x, k + 1);
        lemma_bwd_reduced(x, k + 1);
        assert(bwd(x, k) == inv_layer(bb, k));
        lemma_layer_inverse_rev(bb, k);
        lemma_fwd_rest_scale(bb, 2, k + 1);
        lemma_fwd_rest_len(bb, k + 1);
        lemma_scale_scale(x, p2(7 - k), 2);
        assert(p2(8 - k) == 2 * p2(7 - k));
        assert(p2(7 - k) * 2 == 2 * p2(7 - k));
    }
}

/// The forward NTT undoes the inverse NTT on canonical inputs.
#[verifier::spinoff_prover]
pub proof fn lemma_ntt_roundtrip_rev(x: Seq<int>)
    requires
        reduced(x),
    ensures
        ntt_spec(invntt_spec(x)) == x,
{
    lemma_rev_roundtrip_from(x, 0);
    reveal_with_fuel(p2, 9);
    assert(p2(8) == 256);
    let bx = bwd(x, 0);
    lemma_bwd_reduced(x, 0);
    assert(invntt_spec(x) =~= scale(bx, 8347681));
    lemma_fwd_split(invntt_spec(x), 0);
    assert(fwd(invntt_spec(x), 0) == invntt_spec(x));
    lemma_fwd_rest_scale(bx, 8347681, 0);
    lemma_scale_scale(x, 256, 8347681);
    assert forall|i: int| 0 <= i < 256 implies #[trigger] scale(x, 256int * 8347681)[i] == x[i] by {
        assert(256 * 8347681 == 1 + 255 * q());
        assert((256 * 8347681) * x[i] == x[i] + q() * (255 * x[i])) by (nonlinear_arith);
        vstd::arithmetic::div_mod::lemma_mod_multiples_vanish(255 * x[i], x[i], q());
        vstd::arithmetic::div_mod::lemma_small_mod(x[i] as nat, q() as nat);
    }
    assert(scale(x, 256int * 8347681) =~= x);
}

} // verus!

verus! {

// ---------------------------------------------------------------------------
// The NTT multiplies: the convolution theorem
// ---------------------------------------------------------------------------

/// The root that the zetas of index m split: -1 for m = 1, else +zeta(m / 2)
/// for even m and -zeta(m / 2) for odd m, modulo q.
pub open spec fn zeta_square(m: int) -> int {
    if m == 1 { q() - 1 } else if m % 2 == 0 { zeta(m / 2) } else { q() - zeta(m / 2) }
}

#[verifier::spinoff_prover]
proof fn lemma_zeta_square_1(m: int)
    requires
        1 <= m < 32,
    ensures
        (zeta(m) * zeta(m)) % q() == zeta_square(m),
{
    if m < 16 {
        if m < 8 {
            if m < 4 {
                if m < 2 {
                    assert(m == 1);
                    assert(zeta(1) == 4808194);
                    assert((4808194 * 4808194) % 8380417 == 8380416);
                } else {
                    if m < 3 {
                        assert(m == 2);
                        assert(zeta(2) == 3765607);
                        assert((3765607 * 3765607) % 8380417 == 4808194);
                        assert(zeta(1) == 4808194);
                    } else {
                        assert(m == 3);
                        assert(zeta(3) == 3761513);
                        assert((3761513 * 3761513) % 8380417 == 3572223);
                        assert(zeta(1) == 4808194);
                    }
                }
            } else {
                if m < 6 {
                    if m < 5 {
                        assert(m == 4);
                        assert(zeta(4) == 5178923);
                        assert((5178923 * 5178923) % 8380417 == 3765607);
                        assert(zeta(2) == 3765607);
                    } else {
                        assert(m == 5);
                        assert(zeta(5) == 5496691);
                        assert((5496691 * 5496691) % 8380417 == 4614810);
                        assert(zeta(2) == 3765607);
                    }
                } else {
                    if m < 7 {
                        assert(m == 6);
                        assert(zeta(6) == 5234739);
                        assert((5234739 * 5234739) % 8380417 == 3761513);
                        assert(zeta(3) == 3761513);
                    } else {
                        assert(m == 7);
                        assert(zeta(7) == 5178987);
                        assert((5178987 * 5178987) % 8380417 == 4618904);
                        assert(zeta(3) == 3761513);
                    }
                }
            }
        } else {
            if m < 12 {
                if m < 10 {
                    if m < 9 {
                        assert(m == 8);
                        assert(zeta(8) == 7778734);
                        assert((7778734 * 7778734) % 8380417 == 5178923);
                        assert(zeta(4) == 5178923);
                    } else {
                        assert(m == 9);
                        assert(zeta(9) == 3542485);
                        assert((3542485 * 3542485) % 8380417 == 3201494);
                        assert(zeta(4) == 5178923);
                    }
                } else {
                    if m < 11 {
                        assert(m == 10);
                        assert(zeta(10) == 2682288);
                        assert((2682288 * 2682288) % 8380417 == 5496691);
                        assert(zeta(5) == 5496691);
                    } else {
                        assert(m == 11);
                        assert(zeta(11) == 2129892);
                        assert((2129892 * 2129892) % 8380417 == 2883726);
                        assert(zeta(5) == 5496691);
                    }
                }
            } else {
                if m < 14 {
                    if m < 13 {
                        assert(m == 12);
                        assert(zeta(12) == 3764867);
                        assert((3764867 * 3764867) % 8380417 == 5234739);
                        assert(zeta(6) == 5234739);
                    } else {
                        assert(m == 13);
                        assert(zeta(13) == 7375178);
                        assert((7375178 * 7375178) % 8380417 == 3145678);
                        assert(zeta(6) == 5234739);
                    }
                } else {
                    if m < 15 {
                        assert(m == 14);
                        assert(zeta(14) == 557458);
                        assert((557458 * 557458) % 8380417 == 5178987);
                        assert(zeta(7) == 5178987);
                    } else {
                        assert(m == 15);
                        assert(zeta(15) == 7159240);
                        assert((7159240 * 7159240) % 8380417 == 3201430);
                        assert(zeta(7) == 5178987);
                    }
                }
            }
        }
    } else {
        if m < 24 {
            if m < 20 {
                if m < 18 {
                    if m < 17 {
                        assert(m == 16);
                        assert(zeta(16) == 5010068);
                        assert((5010068 * 5010068) % 8380417 == 7778734);
                        assert(zeta(8) == 7778734);
                    } else {
                        assert(m == 17);
                        assert(zeta(17) == 4317364);
                        assert((4317364 * 4317364) % 8380417 == 601683);
                        assert(zeta(8) == 7778734);
                    }
                } else {
                    if m < 19 {
                        assert(m == 18);
                        assert(zeta(18) == 2663378);
                        assert((2663378 * 2663378) % 8380417 == 3542485);
                        assert(zeta(9) == 3542485);
                    } else {
                        assert(m == 19);
                        assert(zeta(19) == 6705802);
                        assert((6705802 * 6705802) % 8380417 == 4837932);
                        assert(zeta(9) == 3542485);
                    }
                }
            } else {
                if m < 22 {
                    if m < 21 {
                        assert(m == 20);
                        assert(zeta(20) == 4855975);
                        assert((4855975 * 4855975) % 8380417 == 2682288);
                        assert(zeta(10) == 2682288);
                    } else {
                        assert(m == 21);
                        assert(zeta(21) == 7946292);
                        assert((7946292 * 7946292) % 8380417 == 5698129);
                        assert(zeta(10) == 2682288);
                    }
                } else {
                    if m < 23 {
                        assert(m == 22);
                        assert(zeta(22) == 676590);
                        assert((676590 * 676590) % 8380417 == 2129892);
                        assert(zeta(11) == 2129892);
                    } else {
                        assert(m == 23);
                        assert(zeta(23) == 7044481);
                        assert((7044481 * 7044481) % 8380417 == 6250525);
                        assert(zeta(11) == 2129892);
                    }
                }
            }
        } else {
            if m < 28 {
                if m < 26 {
                    if m < 25 {
                        assert(m == 24);
                        assert(zeta(24) == 5152541);
                        assert((5152541 * 5152541) % 8380417 == 3764867);
                        assert(zeta(12) == 3764867);
                    } else {
                        assert(m == 25);
                        assert(zeta(25) == 1714295);
                        assert((1714295 * 1714295) % 8380417 == 4615550);
                        assert(zeta(12) == 3764867);
                    }
                } else {
                    if m < 27 {
                        assert(m == 26);
                        assert(zeta(26) == 2453983);
                        assert((2453983 * 2453983) % 8380417 == 7375178);
                        assert(zeta(13) == 7375178);
                    } else {
                        assert(m == 27);
                        assert(zeta(27) == 1460718);
                        assert((1460718 * 1460718) % 8380417 == 1005239);
                        assert(zeta(13) == 7375178);
                    }
                }
            } else {
                if m < 30 {
                    if m < 29 {
                        assert(m == 28);
                        assert(zeta(28) == 7737789);
                        assert((7737789 * 7737789) % 8380417 == 557458);
                        assert(zeta(14) == 557458);
                    } else {
                        assert(m == 29);
                        assert(zeta(29) == 4795319);
                        assert((4795319 * 4795319) % 8380417 == 7822959);
                        assert(zeta(14) == 557458);
                    }
                } else {
                    if m < 31 {
                        assert(m == 30);
                        assert(zeta(30) == 2815639);
                        assert((2815639 * 2815639) % 8380417 == 7159240);
                        assert(zeta(15) == 7159240);
                    } else {
                        assert(m == 31);
                        assert(zeta(31) == 2283733);
                        assert((2283733 * 2283733) % 8380417 == 1221177);
                        assert(zeta(15) == 7159240);
                    }
                }
            }
        }
    }
}

#[verifier::spinoff_prover]
proof fn lemma_zeta_square_32(m: int)
    requires
        32 <= m < 64,
    ensures
        (zeta(m) * zeta(m)) % q() == zeta_square(m),
{
    if m < 48 {
        if m < 40 {
            if m < 36 {
                if m < 34 {
                    if m < 33 {
                        assert(m == 32);
                        assert(zeta(32) == 3602218);
                        assert((3602218 * 3602218) % 8380417 == 5010068);
                        assert(zeta(16) == 5010068);
                    } else {
                        assert(m == 33);
                        assert(zeta(33) == 3182878);
                        assert((3182878 * 3182878) % 8380417 == 3370349);
                        assert(zeta(16) == 5010068);
                    }
                } else {
                    if m < 35 {
                        assert(m == 34);
                        assert(zeta(34) == 2740543);
                        assert((2740543 * 2740543) % 8380417 == 4317364);
                        assert(zeta(17) == 4317364);
                    } else {
                        assert(m == 35);
                        assert(zeta(35) == 4793971);
                        assert((4793971 * 4793971) % 8380417 == 4063053);
                        assert(zeta(17) == 4317364);
                    }
                }
            } else {
                if m < 38 {
                    if m < 37 {
                        assert(m == 36);
                        assert(zeta(36) == 5269599);
                        assert((5269599 * 5269599) % 8380417 == 2663378);
                        assert(zeta(18) == 2663378);
                    } else {
                        assert(m == 37);
                        assert(zeta(37) == 2101410);
                        assert((2101410 * 2101410) % 8380417 == 5717039);
                        assert(zeta(18) == 2663378);
                    }
                } else {
                    if m < 39 {
                        assert(m == 38);
                        assert(zeta(38) == 3704823);
                        assert((3704823 * 3704823) % 8380417 == 6705802);
                        assert(zeta(19) == 6705802);
                    } else {
                        assert(m == 39);
                        assert(zeta(39) == 1159875);
                        assert((1159875 * 1159875) % 8380417 == 1674615);
                        assert(zeta(19) == 6705802);
                    }
                }
            }
        } else {
            if m < 44 {
                if m < 42 {
                    if m < 41 {
                        assert(m == 40);
                        assert(zeta(40) == 394148);
                        assert((394148 * 394148) % 8380417 == 4855975);
                        assert(zeta(20) == 4855975);
                    } else {
                        assert(m == 41);
                        assert(zeta(41) == 928749);
                        assert((928749 * 928749) % 8380417 == 3524442);
                        assert(zeta(20) == 4855975);
                    }
                } else {
                    if m < 43 {
                        assert(m == 42);
                        assert(zeta(42) == 1095468);
                        assert((1095468 * 1095468) % 8380417 == 7946292);
                        assert(zeta(21) == 7946292);
                    } else {
                        assert(m == 43);
                        assert(zeta(43) == 4874037);
                        assert((4874037 * 4874037) % 8380417 == 434125);
                        assert(zeta(21) == 7946292);
                    }
                }
            } else {
                if m < 46 {
                    if m < 45 {
                        assert(m == 44);
                        assert(zeta(44) == 2071829);
                        assert((2071829 * 2071829) % 8380417 == 676590);
                        assert(zeta(22) == 676590);
                    } else {
                        assert(m == 45);
                        assert(zeta(45) == 4361428);
                        assert((4361428 * 4361428) % 8380417 == 7703827);
                        assert(zeta(22) == 676590);
                    }
                } else {
                    if m < 47 {
                        assert(m == 46);
                        assert(zeta(46) == 3241972);
                        assert((3241972 * 3241972) % 8380417 == 7044481);
                        assert(zeta(23) == 7044481);
                    } else {
                        assert(m == 47);
                        assert(zeta(47) == 2156050);
                        assert((2156050 * 2156050) % 8380417 == 1335936);
                        assert(zeta(23) == 7044481);
                    }
                }
            }
        }
    } else {
        if m < 56 {
            if m < 52 {
                if m < 50 {
                    if m < 49 {
                        assert(m == 48);
                        assert(zeta(48) == 3415069);
                        assert((3415069 * 3415069) % 8380417 == 5152541);
                        assert(zeta(24) == 5152541);
                    } else {
                        assert(m == 49);
                        assert(zeta(49) == 1759347);
                        assert((1759347 * 1759347) % 8380417 == 3227876);
                        assert(zeta(24) == 5152541);
                    }
                } else {
                    if m < 51 {
                        assert(m == 50);
                        assert(zeta(50) == 7562881);
                        assert((7562881 * 7562881) % 8380417 == 1714295);
                        assert(zeta(25) == 1714295);
                    } else {
                        assert(m == 51);
                        assert(zeta(51) == 4805951);
                        assert((4805951 * 4805951) % 8380417 == 6666122);
                        assert(zeta(25) == 1714295);
                    }
                }
            } else {
                if m < 54 {
                    if m < 53 {
                        assert(m == 52);
                        assert(zeta(52) == 3756790);
                        assert((3756790 * 3756790) % 8380417 == 2453983);
                        assert(zeta(26) == 2453983);
                    } else {
                        assert(m == 53);
                        assert(zeta(53) == 6444618);
                        assert((6444618 * 6444618) % 8380417 == 5926434);
                        assert(zeta(26) == 2453983);
                    }
                } else {
                    if m < 55 {
                        assert(m == 54);
                        assert(zeta(54) == 6663429);
                        assert((6663429 * 6663429) % 8380417 == 1460718);
                        assert(zeta(27) == 1460718);
                    } else {
                        assert(m == 55);
                        assert(zeta(55) == 4430364);
                        assert((4430364 * 4430364) % 8380417 == 6919699);
                        assert(zeta(27) == 1460718);
                    }
                }
            }
        } else {
            if m < 60 {
                if m < 58 {
                    if m < 57 {
                        assert(m == 56);
                        assert(zeta(56) == 5483103);
                        assert((5483103 * 5483103) % 8380417 == 7737789);
                        assert(zeta(28) == 7737789);
                    } else {
                        assert(m == 57);
                        assert(zeta(57) == 3192354);
                        assert((3192354 * 3192354) % 8380417 == 642628);
                        assert(zeta(28) == 7737789);
                    }
                } else {
                    if m < 59 {
                        assert(m == 58);
                        assert(zeta(58) == 556856);
                        assert((556856 * 556856) % 8380417 == 4795319);
                        assert(zeta(29) == 4795319);
                    } else {
                        assert(m == 59);
                        assert(zeta(59) == 3870317);
                        assert((3870317 * 3870317) % 8380417 == 3585098);
                        assert(zeta(29) == 4795319);
                    }
                }
            } else {
                if m < 62 {
                    if m < 61 {
                        assert(m == 60);
                        assert(zeta(60) == 2917338);
                        assert((2917338 * 2917338) % 8380417 == 2815639);
                        assert(zeta(30) == 2815639);
                    } else {
                        assert(m == 61);
                        assert(zeta(61) == 1853806);
                        assert((1853806 * 1853806) % 8380417 == 5564778);
                        assert(zeta(30) == 2815639);
                    }
                } else {
                    if m < 63 {
                        assert(m == 62);
                        assert(zeta(62) == 3345963);
                        assert((3345963 * 3345963) % 8380417 == 2283733);
                        assert(zeta(31) == 2283733);
                    } else {
                        assert(m == 63);
                        assert(zeta(63) == 1858416);
                        assert((1858416 * 1858416) % 8380417 == 6096684);
                        assert(zeta(31) == 2283733);
                    }
                }
            }
        }
    }
}

#[verifier::spinoff_prover]
proof fn lemma_zeta_square_64(m: int)
    requires
        64 <= m < 96,
    ensures
        (zeta(m) * zeta(m)) % q() == zeta_square(m),
{
    if m < 80 {
        if m < 72 {
            if m < 68 {
                if m < 66 {
                    if m < 65 {
                        assert(m == 64);
                        assert(zeta(64) == 3073009);
                        assert((3073009 * 3073009) % 8380417 == 3602218);
                        assert(zeta(32) == 3602218);
                    } else {
                        assert(m == 65);
                        assert(zeta(65) == 1277625);
                        assert((1277625 * 1277625) % 8380417 == 4778199);
                        assert(zeta(32) == 3602218);
                    }
                } else {
                    if m < 67 {
                        assert(m == 66);
                        assert(zeta(66) == 5744944);
                        assert((5744944 * 5744944) % 8380417 == 3182878);
                        assert(zeta(33) == 3182878);
                    } else {
                        assert(m == 67);
                        assert(zeta(67) == 3852015);
                        assert((3852015 * 3852015) % 8380417 == 5197539);
                        assert(zeta(33) == 3182878);
                    }
                }
            } else {
                if m < 70 {
                    if m < 69 {
                        assert(m == 68);
                        assert(zeta(68) == 4183372);
                        assert((4183372 * 4183372) % 8380417 == 2740543);
                        assert(zeta(34) == 2740543);
                    } else {
                        assert(m == 69);
                        assert(zeta(69) == 5157610);
                        assert((5157610 * 5157610) % 8380417 == 5639874);
                        assert(zeta(34) == 2740543);
                    }
                } else {
                    if m < 71 {
                        assert(m == 70);
                        assert(zeta(70) == 5258977);
                        assert((5258977 * 5258977) % 8380417 == 4793971);
                        assert(zeta(35) == 4793971);
                    } else {
                        assert(m == 71);
                        assert(zeta(71) == 8106357);
                        assert((8106357 * 8106357) % 8380417 == 3586446);
                        assert(zeta(35) == 4793971);
                    }
                }
            }
        } else {
            if m < 76 {
                if m < 74 {
                    if m < 73 {
                        assert(m == 72);
                        assert(zeta(72) == 2508980);
                        assert((2508980 * 2508980) % 8380417 == 5269599);
                        assert(zeta(36) == 5269599);
                    } else {
                        assert(m == 73);
                        assert(zeta(73) == 2028118);
                        assert((2028118 * 2028118) % 8380417 == 3110818);
                        assert(zeta(36) == 5269599);
                    }
                } else {
                    if m < 75 {
                        assert(m == 74);
                        assert(zeta(74) == 1937570);
                        assert((1937570 * 1937570) % 8380417 == 2101410);
                        assert(zeta(37) == 2101410);
                    } else {
                        assert(m == 75);
                        assert(zeta(75) == 4564692);
                        assert((4564692 * 4564692) % 8380417 == 6279007);
                        assert(zeta(37) == 2101410);
                    }
                }
            } else {
                if m < 78 {
                    if m < 77 {
                        assert(m == 76);
                        assert(zeta(76) == 2811291);
                        assert((2811291 * 2811291) % 8380417 == 3704823);
                        assert(zeta(38) == 3704823);
                    } else {
                        assert(m == 77);
                        assert(zeta(77) == 5396636);
                        assert((5396636 * 5396636) % 8380417 == 4675594);
                        assert(zeta(38) == 3704823);
                    }
                } else {
                    if m < 79 {
                        assert(m == 78);
                        assert(zeta(78) == 7270901);
                        assert((7270901 * 7270901) % 8380417 == 1159875);
                        assert(zeta(39) == 1159875);
                    } else {
                        assert(m == 79);
                        assert(zeta(79) == 4158088);
                        assert((4158088 * 4158088) % 8380417 == 7220542);
                        assert(zeta(39) == 1159875);
                    }
                }
            }
        }
    } else {
        if m < 88 {
            if m < 84 {
                if m < 82 {
                    if m < 81 {
                        assert(m == 80);
                        assert(zeta(80) == 1528066);
                        assert((1528066 * 1528066) % 8380417 == 394148);
                        assert(zeta(40) == 394148);
                    } else {
                        assert(m == 81);
                        assert(zeta(81) == 482649);
                        assert((482649 * 482649) % 8380417 == 7986269);
                        assert(zeta(40) == 394148);
                    }
                } else {
                    if m < 83 {
                        assert(m == 82);
                        assert(zeta(82) == 1148858);
                        assert((1148858 * 1148858) % 8380417 == 928749);
                        assert(zeta(41) == 928749);
                    } else {
                        assert(m == 83);
                        assert(zeta(83) == 5418153);
                        assert((5418153 * 5418153) % 8380417 == 7451668);
                        assert(zeta(41) == 928749);
                    }
                }
            } else {
                if m < 86 {
                    if m < 85 {
                        assert(m == 84);
                        assert(zeta(84) == 7814814);
                        assert((7814814 * 7814814) % 8380417 == 1095468);
                        assert(zeta(42) == 1095468);
                    } else {
                        assert(m == 85);
                        assert(zeta(85) == 169688);
                        assert((169688 * 169688) % 8380417 == 7284949);
                        assert(zeta(42) == 1095468);
                    }
                } else {
                    if m < 87 {
                        assert(m == 86);
                        assert(zeta(86) == 2462444);
                        assert((2462444 * 2462444) % 8380417 == 4874037);
                        assert(zeta(43) == 4874037);
                    } else {
                        assert(m == 87);
                        assert(zeta(87) == 5046034);
                        assert((5046034 * 5046034) % 8380417 == 3506380);
                        assert(zeta(43) == 4874037);
                    }
                }
            }
        } else {
            if m < 92 {
                if m < 90 {
                    if m < 89 {
                        assert(m == 88);
                        assert(zeta(88) == 4213992);
                        assert((4213992 * 4213992) % 8380417 == 2071829);
                        assert(zeta(44) == 2071829);
                    } else {
                        assert(m == 89);
                        assert(zeta(89) == 4892034);
                        assert((4892034 * 4892034) % 8380417 == 6308588);
                        assert(zeta(44) == 2071829);
                    }
                } else {
                    if m < 91 {
                        assert(m == 90);
                        assert(zeta(90) == 1987814);
                        assert((1987814 * 1987814) % 8380417 == 4361428);
                        assert(zeta(45) == 4361428);
                    } else {
                        assert(m == 91);
                        assert(zeta(91) == 5183169);
                        assert((5183169 * 5183169) % 8380417 == 4018989);
                        assert(zeta(45) == 4361428);
                    }
                }
            } else {
                if m < 94 {
                    if m < 93 {
                        assert(m == 92);
                        assert(zeta(92) == 1736313);
                        assert((1736313 * 1736313) % 8380417 == 3241972);
                        assert(zeta(46) == 3241972);
                    } else {
                        assert(m == 93);
                        assert(zeta(93) == 235407);
                        assert((235407 * 235407) % 8380417 == 5138445);
                        assert(zeta(46) == 3241972);
                    }
                } else {
                    if m < 95 {
                        assert(m == 94);
                        assert(zeta(94) == 5130263);
                        assert((5130263 * 5130263) % 8380417 == 2156050);
                        assert(zeta(47) == 2156050);
                    } else {
                        assert(m == 95);
                        assert(zeta(95) == 3258457);
                        assert((3258457 * 3258457) % 8380417 == 6224367);
                        assert(zeta(47) == 2156050);
                    }
                }
            }
        }
    }
}

#[verifier::spinoff_prover]
proof fn lemma_zeta_square_96(m: int)
    requires
        96 <= m < 128,
    ensures
        (zeta(m) * zeta(m)) % q() == zeta_square(m),
{
    if m < 112 {
        if m < 104 {
            if m < 100 {
                if m < 98 {
                    if m < 97 {
                        assert(m == 96);
                        assert(zeta(96) == 5801164);
                        assert((5801164 * 5801164) % 8380417 == 3415069);
                        assert(zeta(48) == 3415069);
                    } else {
                        assert(m == 97);
                        assert(zeta(97) == 1787943);
                        assert((1787943 * 1787943) % 8380417 == 4965348);
                        assert(zeta(48) == 3415069);
                    }
                } else {
                    if m < 99 {
                        assert(m == 98);
                        assert(zeta(98) == 5989328);
                        assert((5989328 * 5989328) % 8380417 == 1759347);
                        assert(zeta(49) == 1759347);
                    } else {
                        assert(m == 99);
                        assert(zeta(99) == 6125690);
                        assert((6125690 * 6125690) % 8380417 == 6621070);
                        assert(zeta(49) == 1759347);
                    }
                }
            } else {
                if m < 102 {
                    if m < 101 {
                        assert(m == 100);
                        assert(zeta(100) == 3482206);
                        assert((3482206 * 3482206) % 8380417 == 7562881);
                        assert(zeta(50) == 7562881);
                    } else {
                        assert(m == 101);
                        assert(zeta(101) == 4197502);
                        assert((4197502 * 4197502) % 8380417 == 817536);
                        assert(zeta(50) == 7562881);
                    }
                } else {
                    if m < 103 {
                        assert(m == 102);
                        assert(zeta(102) == 7080401);
                        assert((7080401 * 7080401) % 8380417 == 4805951);
                        assert(zeta(51) == 4805951);
                    } else {
                        assert(m == 103);
                        assert(zeta(103) == 6018354);
                        assert((6018354 * 6018354) % 8380417 == 3574466);
                        assert(zeta(51) == 4805951);
                    }
                }
            }
        } else {
            if m < 108 {
                if m < 106 {
                    if m < 105 {
                        assert(m == 104);
                        assert(zeta(104) == 7062739);
                        assert((7062739 * 7062739) % 8380417 == 3756790);
                        assert(zeta(52) == 3756790);
                    } else {
                        assert(m == 105);
                        assert(zeta(105) == 2461387);
                        assert((2461387 * 2461387) % 8380417 == 4623627);
                        assert(zeta(52) == 3756790);
                    }
                } else {
                    if m < 107 {
                        assert(m == 106);
                        assert(zeta(106) == 3035980);
                        assert((3035980 * 3035980) % 8380417 == 6444618);
                        assert(zeta(53) == 6444618);
                    } else {
                        assert(m == 107);
                        assert(zeta(107) == 621164);
                        assert((621164 * 621164) % 8380417 == 1935799);
                        assert(zeta(53) == 6444618);
                    }
                }
            } else {
                if m < 110 {
                    if m < 109 {
                        assert(m == 108);
                        assert(zeta(108) == 3901472);
                        assert((3901472 * 3901472) % 8380417 == 6663429);
                        assert(zeta(54) == 6663429);
                    } else {
                        assert(m == 109);
                        assert(zeta(109) == 7153756);
                        assert((7153756 * 7153756) % 8380417 == 1716988);
                        assert(zeta(54) == 6663429);
                    }
                } else {
                    if m < 111 {
                        assert(m == 110);
                        assert(zeta(110) == 2925816);
                        assert((2925816 * 2925816) % 8380417 == 4430364);
                        assert(zeta(55) == 4430364);
                    } else {
                        assert(m == 111);
                        assert(zeta(111) == 3374250);
                        assert((3374250 * 3374250) % 8380417 == 3950053);
                        assert(zeta(55) == 4430364);
                    }
                }
            }
        }
    } else {
        if m < 120 {
            if m < 116 {
                if m < 114 {
                    if m < 113 {
                        assert(m == 112);
                        assert(zeta(112) == 1356448);
                        assert((1356448 * 1356448) % 8380417 == 5483103);
                        assert(zeta(56) == 5483103);
                    } else {
                        assert(m == 113);
                        assert(zeta(113) == 5604662);
                        assert((5604662 * 5604662) % 8380417 == 2897314);
                        assert(zeta(56) == 5483103);
                    }
                } else {
                    if m < 115 {
                        assert(m == 114);
                        assert(zeta(114) == 2683270);
                        assert((2683270 * 2683270) % 8380417 == 3192354);
                        assert(zeta(57) == 3192354);
                    } else {
                        assert(m == 115);
                        assert(zeta(115) == 5601629);
                        assert((5601629 * 5601629) % 8380417 == 5188063);
                        assert(zeta(57) == 3192354);
                    }
                }
            } else {
                if m < 118 {
                    if m < 117 {
                        assert(m == 116);
                        assert(zeta(116) == 4912752);
                        assert((4912752 * 4912752) % 8380417 == 556856);
                        assert(zeta(58) == 556856);
                    } else {
                        assert(m == 117);
                        assert(zeta(117) == 2312838);
                        assert((2312838 * 2312838) % 8380417 == 7823561);
                        assert(zeta(58) == 556856);
                    }
                } else {
                    if m < 119 {
                        assert(m == 118);
                        assert(zeta(118) == 7727142);
                        assert((7727142 * 7727142) % 8380417 == 3870317);
                        assert(zeta(59) == 3870317);
                    } else {
                        assert(m == 119);
                        assert(zeta(119) == 7921254);
                        assert((7921254 * 7921254) % 8380417 == 4510100);
                        assert(zeta(59) == 3870317);
                    }
                }
            }
        } else {
            if m < 124 {
                if m < 122 {
                    if m < 121 {
                        assert(m == 120);
                        assert(zeta(120) == 348812);
                        assert((348812 * 348812) % 8380417 == 2917338);
                        assert(zeta(60) == 2917338);
                    } else {
                        assert(m == 121);
                        assert(zeta(121) == 8052569);
                        assert((8052569 * 8052569) % 8380417 == 5463079);
                        assert(zeta(60) == 2917338);
                    }
                } else {
                    if m < 123 {
                        assert(m == 122);
                        assert(zeta(122) == 1011223);
                        assert((1011223 * 1011223) % 8380417 == 1853806);
                        assert(zeta(61) == 1853806);
                    } else {
                        assert(m == 123);
                        assert(zeta(123) == 6026202);
                        assert((6026202 * 6026202) % 8380417 == 6526611);
                        assert(zeta(61) == 1853806);
                    }
                }
            } else {
                if m < 126 {
                    if m < 125 {
                        assert(m == 124);
                        assert(zeta(124) == 4561790);
                        assert((4561790 * 4561790) % 8380417 == 3345963);
                        assert(zeta(62) == 3345963);
                    } else {
                        assert(m == 125);
                        assert(zeta(125) == 6458164);
                        assert((6458164 * 6458164) % 8380417 == 5034454);
                        assert(zeta(62) == 3345963);
                    }
                } else {
                    if m < 127 {
                        assert(m == 126);
                        assert(zeta(126) == 6143691);
                        assert((6143691 * 6143691) % 8380417 == 1858416);
                        assert(zeta(63) == 1858416);
                    } else {
                        assert(m == 127);
                        assert(zeta(127) == 1744507);
                        assert((1744507 * 1744507) % 8380417 == 6522001);
                        assert(zeta(63) == 1858416);
                    }
                }
            }
        }
    }
}

#[verifier::spinoff_prover]
proof fn lemma_zeta_square_128(m: int)
    requires
        128 <= m < 160,
    ensures
        (zeta(m) * zeta(m)) % q() == zeta_square(m),
{
    if m < 144 {
        if m < 136 {
            if m < 132 {
                if m < 130 {
                    if m < 129 {
                        assert(m == 128);
                        assert(zeta(128) == 1753);
                        assert((1753 * 1753) % 8380417 == 3073009);
                        assert(zeta(64) == 3073009);
                    } else {
                        assert(m == 129);
                        assert(zeta(129) == 6444997);
                        assert((6444997 * 6444997) % 8380417 == 5307408);
                        assert(zeta(64) == 3073009);
                    }
                } else {
                    if m < 131 {
                        assert(m == 130);
                        assert(zeta(130) == 5720892);
                        assert((5720892 * 5720892) % 8380417 == 1277625);
                        assert(zeta(65) == 1277625);
                    } else {
                        assert(m == 131);
                        assert(zeta(131) == 6924527);
                        assert((6924527 * 6924527) % 8380417 == 7102792);
                        assert(zeta(65) == 1277625);
                    }
                }
            } else {
                if m < 134 {
                    if m < 133 {
                        assert(m == 132);
                        assert(zeta(132) == 2660408);
                        assert((2660408 * 2660408) % 8380417 == 5744944);
                        assert(zeta(66) == 5744944);
                    } else {
                        assert(m == 133);
                        assert(zeta(133) == 6600190);
                        assert((6600190 * 6600190) % 8380417 == 2635473);
                        assert(zeta(66) == 5744944);
                    }
                } else {
                    if m < 135 {
                        assert(m == 134);
                        assert(zeta(134) == 8321269);
                        assert((8321269 * 8321269) % 8380417 == 3852015);
                        assert(zeta(67) == 3852015);
                    } else {
                        assert(m == 135);
                        assert(zeta(135) == 2772600);
                        assert((2772600 * 2772600) % 8380417 == 4528402);
                        assert(zeta(67) == 3852015);
                    }
                }
            }
        } else {
            if m < 140 {
                if m < 138 {
                    if m < 137 {
                        assert(m == 136);
                        assert(zeta(136) == 1182243);
                        assert((1182243 * 1182243) % 8380417 == 4183372);
                        assert(zeta(68) == 4183372);
                    } else {
                        assert(m == 137);
                        assert(zeta(137) == 87208);
                        assert((87208 * 87208) % 8380417 == 4197045);
                        assert(zeta(68) == 4183372);
                    }
                } else {
                    if m < 139 {
                        assert(m == 138);
                        assert(zeta(138) == 636927);
                        assert((636927 * 636927) % 8380417 == 5157610);
                        assert(zeta(69) == 5157610);
                    } else {
                        assert(m == 139);
                        assert(zeta(139) == 4415111);
                        assert((4415111 * 4415111) % 8380417 == 3222807);
                        assert(zeta(69) == 5157610);
                    }
                }
            } else {
                if m < 142 {
                    if m < 141 {
                        assert(m == 140);
                        assert(zeta(140) == 4423672);
                        assert((4423672 * 4423672) % 8380417 == 5258977);
                        assert(zeta(70) == 5258977);
                    } else {
                        assert(m == 141);
                        assert(zeta(141) == 6084020);
                        assert((6084020 * 6084020) % 8380417 == 3121440);
                        assert(zeta(70) == 5258977);
                    }
                } else {
                    if m < 143 {
                        assert(m == 142);
                        assert(zeta(142) == 5095502);
                        assert((5095502 * 5095502) % 8380417 == 8106357);
                        assert(zeta(71) == 8106357);
                    } else {
                        assert(m == 143);
                        assert(zeta(143) == 4663471);
                        assert((4663471 * 4663471) % 8380417 == 274060);
                        assert(zeta(71) == 8106357);
                    }
                }
            }
        }
    } else {
        if m < 152 {
            if m < 148 {
                if m < 146 {
                    if m < 145 {
                        assert(m == 144);
                        assert(zeta(144) == 8352605);
                        assert((8352605 * 8352605) % 8380417 == 2508980);
                        assert(zeta(72) == 2508980);
                    } else {
                        assert(m == 145);
                        assert(zeta(145) == 822541);
                        assert((822541 * 822541) % 8380417 == 5871437);
                        assert(zeta(72) == 2508980);
                    }
                } else {
                    if m < 147 {
                        assert(m == 146);
                        assert(zeta(146) == 1009365);
                        assert((1009365 * 1009365) % 8380417 == 2028118);
                        assert(zeta(73) == 2028118);
                    } else {
                        assert(m == 147);
                        assert(zeta(147) == 5926272);
                        assert((5926272 * 5926272) % 8380417 == 6352299);
                        assert(zeta(73) == 2028118);
                    }
                }
            } else {
                if m < 150 {
                    if m < 149 {
                        assert(m == 148);
                        assert(zeta(148) == 6400920);
                        assert((6400920 * 6400920) % 8380417 == 1937570);
                        assert(zeta(74) == 1937570);
                    } else {
                        assert(m == 149);
                        assert(zeta(149) == 1596822);
                        assert((1596822 * 1596822) % 8380417 == 6442847);
                        assert(zeta(74) == 1937570);
                    }
                } else {
                    if m < 151 {
                        assert(m == 150);
                        assert(zeta(150) == 4423473);
                        assert((4423473 * 4423473) % 8380417 == 4564692);
                        assert(zeta(75) == 4564692);
                    } else {
                        assert(m == 151);
                        assert(zeta(151) == 4620952);
                        assert((4620952 * 4620952) % 8380417 == 3815725);
                        assert(zeta(75) == 4564692);
                    }
                }
            }
        } else {
            if m < 156 {
                if m < 154 {
                    if m < 153 {
                        assert(m == 152);
                        assert(zeta(152) == 6695264);
                        assert((6695264 * 6695264) % 8380417 == 2811291);
                        assert(zeta(76) == 2811291);
                    } else {
                        assert(m == 153);
                        assert(zeta(153) == 4969849);
                        assert((4969849 * 4969849) % 8380417 == 5569126);
                        assert(zeta(76) == 2811291);
                    }
                } else {
                    if m < 155 {
                        assert(m == 154);
                        assert(zeta(154) == 2678278);
                        assert((2678278 * 2678278) % 8380417 == 5396636);
                        assert(zeta(77) == 5396636);
                    } else {
                        assert(m == 155);
                        assert(zeta(155) == 4611469);
                        assert((4611469 * 4611469) % 8380417 == 2983781);
                        assert(zeta(77) == 5396636);
                    }
                }
            } else {
                if m < 158 {
                    if m < 157 {
                        assert(m == 156);
                        assert(zeta(156) == 4829411);
                        assert((4829411 * 4829411) % 8380417 == 7270901);
                        assert(zeta(78) == 7270901);
                    } else {
                        assert(m == 157);
                        assert(zeta(157) == 635956);
                        assert((635956 * 635956) % 8380417 == 1109516);
                        assert(zeta(78) == 7270901);
                    }
                } else {
                    if m < 159 {
                        assert(m == 158);
                        assert(zeta(158) == 8129971);
                        assert((8129971 * 8129971) % 8380417 == 4158088);
                        assert(zeta(79) == 4158088);
                    } else {
                        assert(m == 159);
                        assert(zeta(159) == 5925040);
                        assert((5925040 * 5925040) % 8380417 == 4222329);
                        assert(zeta(79) == 4158088);
                    }
                }
            }
        }
    }
}

#[verifier::spinoff_prover]
proof fn lemma_zeta_square_160(m: int)
    requires
        160 <= m < 192,
    ensures
        (zeta(m) * zeta(m)) % q() == zeta_square(m),
{
    if m < 176 {
        if m < 168 {
            if m < 164 {
                if m < 162 {
                    if m < 161 {
                        assert(m == 160);
                        assert(zeta(160) == 4234153);
                        assert((4234153 * 4234153) % 8380417 == 1528066);
                        assert(zeta(80) == 1528066);
                    } else {
                        assert(m == 161);
                        assert(zeta(161) == 6607829);
                        assert((6607829 * 6607829) % 8380417 == 6852351);
                        assert(zeta(80) == 1528066);
                    }
                } else {
                    if m < 163 {
                        assert(m == 162);
                        assert(zeta(162) == 2192938);
                        assert((2192938 * 2192938) % 8380417 == 482649);
                        assert(zeta(81) == 482649);
                    } else {
                        assert(m == 163);
                        assert(zeta(163) == 6653329);
                        assert((6653329 * 6653329) % 8380417 == 7897768);
                        assert(zeta(81) == 482649);
                    }
                }
            } else {
                if m < 166 {
                    if m < 165 {
                        assert(m == 164);
                        assert(zeta(164) == 2387513);
                        assert((2387513 * 2387513) % 8380417 == 1148858);
                        assert(zeta(82) == 1148858);
                    } else {
                        assert(m == 165);
                        assert(zeta(165) == 4768667);
                        assert((4768667 * 4768667) % 8380417 == 7231559);
                        assert(zeta(82) == 1148858);
                    }
                } else {
                    if m < 167 {
                        assert(m == 166);
                        assert(zeta(166) == 8111961);
                        assert((8111961 * 8111961) % 8380417 == 5418153);
                        assert(zeta(83) == 5418153);
                    } else {
                        assert(m == 167);
                        assert(zeta(167) == 5199961);
                        assert((5199961 * 5199961) % 8380417 == 2962264);
                        assert(zeta(83) == 5418153);
                    }
                }
            }
        } else {
            if m < 172 {
                if m < 170 {
                    if m < 169 {
                        assert(m == 168);
                        assert(zeta(168) == 3747250);
                        assert((3747250 * 3747250) % 8380417 == 7814814);
                        assert(zeta(84) == 7814814);
                    } else {
                        assert(m == 169);
                        assert(zeta(169) == 2296099);
                        assert((2296099 * 2296099) % 8380417 == 565603);
                        assert(zeta(84) == 7814814);
                    }
                } else {
                    if m < 171 {
                        assert(m == 170);
                        assert(zeta(170) == 1239911);
                        assert((1239911 * 1239911) % 8380417 == 169688);
                        assert(zeta(85) == 169688);
                    } else {
                        assert(m == 171);
                        assert(zeta(171) == 4541938);
                        assert((4541938 * 4541938) % 8380417 == 8210729);
                        assert(zeta(85) == 169688);
                    }
                }
            } else {
                if m < 174 {
                    if m < 173 {
                        assert(m == 172);
                        assert(zeta(172) == 3195676);
                        assert((3195676 * 3195676) % 8380417 == 2462444);
                        assert(zeta(86) == 2462444);
                    } else {
                        assert(m == 173);
                        assert(zeta(173) == 2642980);
                        assert((2642980 * 2642980) % 8380417 == 5917973);
                        assert(zeta(86) == 2462444);
                    }
                } else {
                    if m < 175 {
                        assert(m == 174);
                        assert(zeta(174) == 1254190);
                        assert((1254190 * 1254190) % 8380417 == 5046034);
                        assert(zeta(87) == 5046034);
                    } else {
                        assert(m == 175);
                        assert(zeta(175) == 8368000);
                        assert((8368000 * 8368000) % 8380417 == 3334383);
                        assert(zeta(87) == 5046034);
                    }
                }
            }
        }
    } else {
        if m < 184 {
            if m < 180 {
                if m < 178 {
                    if m < 177 {
                        assert(m == 176);
                        assert(zeta(176) == 2998219);
                        assert((2998219 * 2998219) % 8380417 == 4213992);
                        assert(zeta(88) == 4213992);
                    } else {
                        assert(m == 177);
                        assert(zeta(177) == 141835);
                        assert((141835 * 141835) % 8380417 == 4166425);
                        assert(zeta(88) == 4213992);
                    }
                } else {
                    if m < 179 {
                        assert(m == 178);
                        assert(zeta(178) == 8291116);
                        assert((8291116 * 8291116) % 8380417 == 4892034);
                        assert(zeta(89) == 4892034);
                    } else {
                        assert(m == 179);
                        assert(zeta(179) == 2513018);
                        assert((2513018 * 2513018) % 8380417 == 3488383);
                        assert(zeta(89) == 4892034);
                    }
                }
            } else {
                if m < 182 {
                    if m < 181 {
                        assert(m == 180);
                        assert(zeta(180) == 7025525);
                        assert((7025525 * 7025525) % 8380417 == 1987814);
                        assert(zeta(90) == 1987814);
                    } else {
                        assert(m == 181);
                        assert(zeta(181) == 613238);
                        assert((613238 * 613238) % 8380417 == 6392603);
                        assert(zeta(90) == 1987814);
                    }
                } else {
                    if m < 183 {
                        assert(m == 182);
                        assert(zeta(182) == 7070156);
                        assert((7070156 * 7070156) % 8380417 == 5183169);
                        assert(zeta(91) == 5183169);
                    } else {
                        assert(m == 183);
                        assert(zeta(183) == 6161950);
                        assert((6161950 * 6161950) % 8380417 == 3197248);
                        assert(zeta(91) == 5183169);
                    }
                }
            }
        } else {
            if m < 188 {
                if m < 186 {
                    if m < 185 {
                        assert(m == 184);
                        assert(zeta(184) == 7921677);
                        assert((7921677 * 7921677) % 8380417 == 1736313);
                        assert(zeta(92) == 1736313);
                    } else {
                        assert(m == 185);
                        assert(zeta(185) == 6458423);
                        assert((6458423 * 6458423) % 8380417 == 6644104);
                        assert(zeta(92) == 1736313);
                    }
                } else {
                    if m < 187 {
                        assert(m == 186);
                        assert(zeta(186) == 4040196);
                        assert((4040196 * 4040196) % 8380417 == 235407);
                        assert(zeta(93) == 235407);
                    } else {
                        assert(m == 187);
                        assert(zeta(187) == 4908348);
                        assert((4908348 * 4908348) % 8380417 == 8145010);
                        assert(zeta(93) == 235407);
                    }
                }
            } else {
                if m < 190 {
                    if m < 189 {
                        assert(m == 188);
                        assert(zeta(188) == 2039144);
                        assert((2039144 * 2039144) % 8380417 == 5130263);
                        assert(zeta(94) == 5130263);
                    } else {
                        assert(m == 189);
                        assert(zeta(189) == 6500539);
                        assert((6500539 * 6500539) % 8380417 == 3250154);
                        assert(zeta(94) == 5130263);
                    }
                } else {
                    if m < 191 {
                        assert(m == 190);
                        assert(zeta(190) == 7561656);
                        assert((7561656 * 7561656) % 8380417 == 3258457);
                        assert(zeta(95) == 3258457);
                    } else {
                        assert(m == 191);
                        assert(zeta(191) == 6201452);
                        assert((6201452 * 6201452) % 8380417 == 5121960);
                        assert(zeta(95) == 3258457);
                    }
                }
            }
        }
    }
}

#[verifier::spinoff_prover]
proof fn lemma_zeta_square_192(m: int)
    requires
        192 <= m < 224,
    ensures
        (zeta(m) * zeta(m)) % q() == zeta_square(m),
{
    if m < 208 {
        if m < 200 {
            if m < 196 {
                if m < 194 {
                    if m < 193 {
                        assert(m == 192);
                        assert(zeta(192) == 6757063);
                        assert((6757063 * 6757063) % 8380417 == 5801164);
                        assert(zeta(96) == 5801164);
                    } else {
                        assert(m == 193);
                        assert(zeta(193) == 2105286);
                        assert((2105286 * 2105286) % 8380417 == 2579253);
                        assert(zeta(96) == 5801164);
                    }
                } else {
                    if m < 195 {
                        assert(m == 194);
                        assert(zeta(194) == 6006015);
                        assert((6006015 * 6006015) % 8380417 == 1787943);
                        assert(zeta(97) == 1787943);
                    } else {
                        assert(m == 195);
                        assert(zeta(195) == 6346610);
                        assert((6346610 * 6346610) % 8380417 == 6592474);
                        assert(zeta(97) == 1787943);
                    }
                }
            } else {
                if m < 198 {
                    if m < 197 {
                        assert(m == 196);
                        assert(zeta(196) == 586241);
                        assert((586241 * 586241) % 8380417 == 5989328);
                        assert(zeta(98) == 5989328);
                    } else {
                        assert(m == 197);
                        assert(zeta(197) == 7200804);
                        assert((7200804 * 7200804) % 8380417 == 2391089);
                        assert(zeta(98) == 5989328);
                    }
                } else {
                    if m < 199 {
                        assert(m == 198);
                        assert(zeta(198) == 527981);
                        assert((527981 * 527981) % 8380417 == 6125690);
                        assert(zeta(99) == 6125690);
                    } else {
                        assert(m == 199);
                        assert(zeta(199) == 5637006);
                        assert((5637006 * 5637006) % 8380417 == 2254727);
                        assert(zeta(99) == 6125690);
                    }
                }
            }
        } else {
            if m < 204 {
                if m < 202 {
                    if m < 201 {
                        assert(m == 200);
                        assert(zeta(200) == 6903432);
                        assert((6903432 * 6903432) % 8380417 == 3482206);
                        assert(zeta(100) == 3482206);
                    } else {
                        assert(m == 201);
                        assert(zeta(201) == 1994046);
                        assert((1994046 * 1994046) % 8380417 == 4898211);
                        assert(zeta(100) == 3482206);
                    }
                } else {
                    if m < 203 {
                        assert(m == 202);
                        assert(zeta(202) == 2491325);
                        assert((2491325 * 2491325) % 8380417 == 4197502);
                        assert(zeta(101) == 4197502);
                    } else {
                        assert(m == 203);
                        assert(zeta(203) == 6987258);
                        assert((6987258 * 6987258) % 8380417 == 4182915);
                        assert(zeta(101) == 4197502);
                    }
                }
            } else {
                if m < 206 {
                    if m < 205 {
                        assert(m == 204);
                        assert(zeta(204) == 507927);
                        assert((507927 * 507927) % 8380417 == 7080401);
                        assert(zeta(102) == 7080401);
                    } else {
                        assert(m == 205);
                        assert(zeta(205) == 7192532);
                        assert((7192532 * 7192532) % 8380417 == 1300016);
                        assert(zeta(102) == 7080401);
                    }
                } else {
                    if m < 207 {
                        assert(m == 206);
                        assert(zeta(206) == 7655613);
                        assert((7655613 * 7655613) % 8380417 == 6018354);
                        assert(zeta(103) == 6018354);
                    } else {
                        assert(m == 207);
                        assert(zeta(207) == 6545891);
                        assert((6545891 * 6545891) % 8380417 == 2362063);
                        assert(zeta(103) == 6018354);
                    }
                }
            }
        }
    } else {
        if m < 216 {
            if m < 212 {
                if m < 210 {
                    if m < 209 {
                        assert(m == 208);
                        assert(zeta(208) == 5346675);
                        assert((5346675 * 5346675) % 8380417 == 7062739);
                        assert(zeta(104) == 7062739);
                    } else {
                        assert(m == 209);
                        assert(zeta(209) == 8041997);
                        assert((8041997 * 8041997) % 8380417 == 1317678);
                        assert(zeta(104) == 7062739);
                    }
                } else {
                    if m < 211 {
                        assert(m == 210);
                        assert(zeta(210) == 2647994);
                        assert((2647994 * 2647994) % 8380417 == 2461387);
                        assert(zeta(105) == 2461387);
                    } else {
                        assert(m == 211);
                        assert(zeta(211) == 3009748);
                        assert((3009748 * 3009748) % 8380417 == 5919030);
                        assert(zeta(105) == 2461387);
                    }
                }
            } else {
                if m < 214 {
                    if m < 213 {
                        assert(m == 212);
                        assert(zeta(212) == 5767564);
                        assert((5767564 * 5767564) % 8380417 == 3035980);
                        assert(zeta(106) == 3035980);
                    } else {
                        assert(m == 213);
                        assert(zeta(213) == 4148469);
                        assert((4148469 * 4148469) % 8380417 == 5344437);
                        assert(zeta(106) == 3035980);
                    }
                } else {
                    if m < 215 {
                        assert(m == 214);
                        assert(zeta(214) == 749577);
                        assert((749577 * 749577) % 8380417 == 621164);
                        assert(zeta(107) == 621164);
                    } else {
                        assert(m == 215);
                        assert(zeta(215) == 4357667);
                        assert((4357667 * 4357667) % 8380417 == 7759253);
                        assert(zeta(107) == 621164);
                    }
                }
            }
        } else {
            if m < 220 {
                if m < 218 {
                    if m < 217 {
                        assert(m == 216);
                        assert(zeta(216) == 3980599);
                        assert((3980599 * 3980599) % 8380417 == 3901472);
                        assert(zeta(108) == 3901472);
                    } else {
                        assert(m == 217);
                        assert(zeta(217) == 2569011);
                        assert((2569011 * 2569011) % 8380417 == 4478945);
                        assert(zeta(108) == 3901472);
                    }
                } else {
                    if m < 219 {
                        assert(m == 218);
                        assert(zeta(218) == 6764887);
                        assert((6764887 * 6764887) % 8380417 == 7153756);
                        assert(zeta(109) == 7153756);
                    } else {
                        assert(m == 219);
                        assert(zeta(219) == 1723229);
                        assert((1723229 * 1723229) % 8380417 == 1226661);
                        assert(zeta(109) == 7153756);
                    }
                }
            } else {
                if m < 222 {
                    if m < 221 {
                        assert(m == 220);
                        assert(zeta(220) == 1665318);
                        assert((1665318 * 1665318) % 8380417 == 2925816);
                        assert(zeta(110) == 2925816);
                    } else {
                        assert(m == 221);
                        assert(zeta(221) == 2028038);
                        assert((2028038 * 2028038) % 8380417 == 5454601);
                        assert(zeta(110) == 2925816);
                    }
                } else {
                    if m < 223 {
                        assert(m == 222);
                        assert(zeta(222) == 1163598);
                        assert((1163598 * 1163598) % 8380417 == 3374250);
                        assert(zeta(111) == 3374250);
                    } else {
                        assert(m == 223);
                        assert(zeta(223) == 5011144);
                        assert((5011144 * 5011144) % 8380417 == 5006167);
                        assert(zeta(111) == 3374250);
                    }
                }
            }
        }
    }
}

#[verifier::spinoff_prover]
proof fn lemma_zeta_square_224(m: int)
    requires
        224 <= m < 256,
    ensures
        (zeta(m) * zeta(m)) % q() == zeta_square(m),
{
    if m < 240 {
        if m < 232 {
            if m < 228 {
                if m < 226 {
                    if m < 225 {
                        assert(m == 224);
                        assert(zeta(224) == 3994671);
                        assert((3994671 * 3994671) % 8380417 == 1356448);
                        assert(zeta(112) == 1356448);
                    } else {
                        assert(m == 225);
                        assert(zeta(225) == 8368538);
                        assert((8368538 * 8368538) % 8380417 == 7023969);
                        assert(zeta(112) == 1356448);
                    }
                } else {
                    if m < 227 {
                        assert(m == 226);
                        assert(zeta(226) == 7009900);
                        assert((7009900 * 7009900) % 8380417 == 5604662);
                        assert(zeta(113) == 5604662);
                    } else {
                        assert(m == 227);
                        assert(zeta(227) == 3020393);
                        assert((3020393 * 3020393) % 8380417 == 2775755);
                        assert(zeta(113) == 5604662);
                    }
                }
            } else {
                if m < 230 {
                    if m < 229 {
                        assert(m == 228);
                        assert(zeta(228) == 3363542);
                        assert((3363542 * 3363542) % 8380417 == 2683270);
                        assert(zeta(114) == 2683270);
                    } else {
                        assert(m == 229);
                        assert(zeta(229) == 214880);
                        assert((214880 * 214880) % 8380417 == 5697147);
                        assert(zeta(114) == 2683270);
                    }
                } else {
                    if m < 231 {
                        assert(m == 230);
                        assert(zeta(230) == 545376);
                        assert((545376 * 545376) % 8380417 == 5601629);
                        assert(zeta(115) == 5601629);
                    } else {
                        assert(m == 231);
                        assert(zeta(231) == 7609976);
                        assert((7609976 * 7609976) % 8380417 == 2778788);
                        assert(zeta(115) == 5601629);
                    }
                }
            }
        } else {
            if m < 236 {
                if m < 234 {
                    if m < 233 {
                        assert(m == 232);
                        assert(zeta(232) == 3105558);
                        assert((3105558 * 3105558) % 8380417 == 4912752);
                        assert(zeta(116) == 4912752);
                    } else {
                        assert(m == 233);
                        assert(zeta(233) == 7277073);
                        assert((7277073 * 7277073) % 8380417 == 3467665);
                        assert(zeta(116) == 4912752);
                    }
                } else {
                    if m < 235 {
                        assert(m == 234);
                        assert(zeta(234) == 508145);
                        assert((508145 * 508145) % 8380417 == 2312838);
                        assert(zeta(117) == 2312838);
                    } else {
                        assert(m == 235);
                        assert(zeta(235) == 7826699);
                        assert((7826699 * 7826699) % 8380417 == 6067579);
                        assert(zeta(117) == 2312838);
                    }
                }
            } else {
                if m < 238 {
                    if m < 237 {
                        assert(m == 236);
                        assert(zeta(236) == 860144);
                        assert((860144 * 860144) % 8380417 == 7727142);
                        assert(zeta(118) == 7727142);
                    } else {
                        assert(m == 237);
                        assert(zeta(237) == 3430436);
                        assert((3430436 * 3430436) % 8380417 == 653275);
                        assert(zeta(118) == 7727142);
                    }
                } else {
                    if m < 239 {
                        assert(m == 238);
                        assert(zeta(238) == 140244);
                        assert((140244 * 140244) % 8380417 == 7921254);
                        assert(zeta(119) == 7921254);
                    } else {
                        assert(m == 239);
                        assert(zeta(239) == 6866265);
                        assert((6866265 * 6866265) % 8380417 == 459163);
                        assert(zeta(119) == 7921254);
                    }
                }
            }
        }
    } else {
        if m < 248 {
            if m < 244 {
                if m < 242 {
                    if m < 241 {
                        assert(m == 240);
                        assert(zeta(240) == 6195333);
                        assert((6195333 * 6195333) % 8380417 == 348812);
                        assert(zeta(120) == 348812);
                    } else {
                        assert(m == 241);
                        assert(zeta(241) == 3123762);
                        assert((3123762 * 3123762) % 8380417 == 8031605);
                        assert(zeta(120) == 348812);
                    }
                } else {
                    if m < 243 {
                        assert(m == 242);
                        assert(zeta(242) == 2358373);
                        assert((2358373 * 2358373) % 8380417 == 8052569);
                        assert(zeta(121) == 8052569);
                    } else {
                        assert(m == 243);
                        assert(zeta(243) == 6187330);
                        assert((6187330 * 6187330) % 8380417 == 327848);
                        assert(zeta(121) == 8052569);
                    }
                }
            } else {
                if m < 246 {
                    if m < 245 {
                        assert(m == 244);
                        assert(zeta(244) == 5365997);
                        assert((5365997 * 5365997) % 8380417 == 1011223);
                        assert(zeta(122) == 1011223);
                    } else {
                        assert(m == 245);
                        assert(zeta(245) == 6663603);
                        assert((6663603 * 6663603) % 8380417 == 7369194);
                        assert(zeta(122) == 1011223);
                    }
                } else {
                    if m < 247 {
                        assert(m == 246);
                        assert(zeta(246) == 2926054);
                        assert((2926054 * 2926054) % 8380417 == 6026202);
                        assert(zeta(123) == 6026202);
                    } else {
                        assert(m == 247);
                        assert(zeta(247) == 7987710);
                        assert((7987710 * 7987710) % 8380417 == 2354215);
                        assert(zeta(123) == 6026202);
                    }
                }
            }
        } else {
            if m < 252 {
                if m < 250 {
                    if m < 249 {
                        assert(m == 248);
                        assert(zeta(248) == 8077412);
                        assert((8077412 * 8077412) % 8380417 == 4561790);
                        assert(zeta(124) == 4561790);
                    } else {
                        assert(m == 249);
                        assert(zeta(249) == 3531229);
                        assert((3531229 * 3531229) % 8380417 == 3818627);
                        assert(zeta(124) == 4561790);
                    }
                } else {
                    if m < 251 {
                        assert(m == 250);
                        assert(zeta(250) == 4405932);
                        assert((4405932 * 4405932) % 8380417 == 6458164);
                        assert(zeta(125) == 6458164);
                    } else {
                        assert(m == 251);
                        assert(zeta(251) == 4606686);
                        assert((4606686 * 4606686) % 8380417 == 1922253);
                        assert(zeta(125) == 6458164);
                    }
                }
            } else {
                if m < 254 {
                    if m < 253 {
                        assert(m == 252);
                        assert(zeta(252) == 1900052);
                        assert((1900052 * 1900052) % 8380417 == 6143691);
                        assert(zeta(126) == 6143691);
                    } else {
                        assert(m == 253);
                        assert(zeta(253) == 7598542);
                        assert((7598542 * 7598542) % 8380417 == 2236726);
                        assert(zeta(126) == 6143691);
                    }
                } else {
                    if m < 255 {
                        assert(m == 254);
                        assert(zeta(254) == 1054478);
                        assert((1054478 * 1054478) % 8380417 == 1744507);
                        assert(zeta(127) == 1744507);
                    } else {
                        assert(m == 255);
                        assert(zeta(255) == 7648983);
                        assert((7648983 * 7648983) % 8380417 == 6635910);
                        assert(zeta(127) == 1744507);
                    }
                }
            }
        }
    }
}

/// The zeta table halves: the square of zeta(m) is zeta_square(m) modulo q.
proof fn lemma_zeta_square(m: int)
    requires
        1 <= m < 256,
    ensures
        (zeta(m) * zeta(m)) % q() == zeta_square(m),
{
    if m < 32 {
        lemma_zeta_square_1(m);
    } else if m < 64 {
        lemma_zeta_square_32(m);
    } else if m < 96 {
        lemma_zeta_square_64(m);
    } else if m < 128 {
        lemma_zeta_square_96(m);
    } else if m < 160 {
        lemma_zeta_square_128(m);
    } else if m < 192 {
        lemma_zeta_square_160(m);
    } else if m < 224 {
        lemma_zeta_square_192(m);
    } else {
        lemma_zeta_square_224(m);
    }
}

} // verus!

verus! {

/// a and b agree modulo q.
spec fn modeq(a: int, b: int) -> bool {
    a % q() == b % q()
}

proof fn lemma_modeq_add(a1: int, b1: int, a2: int, b2: int)
    requires
        modeq(a1, b1),
        modeq(a2, b2),
    ensures
        modeq(a1 + a2, b1 + b2),
        modeq(a1 - a2, b1 - b2),
{
    vstd::arithmetic::div_mod::lemma_add_mod_noop(a1, a2, q());
    vstd::arithmetic::div_mod::lemma_add_mod_noop(b1, b2, q());
    vstd::arithmetic::div_mod::lemma_sub_mod_noop(a1, a2, q());
    vstd::arithmetic::div_mod::lemma_sub_mod_noop(b1, b2, q());
}

proof fn lemma_modeq_mul(c: int, a: int, b: int)
    requires
        modeq(a, b),
    ensures
        modeq(c * a, c * b),
{
    lemma_mul_mod_noop_right(c, a, q());
    lemma_mul_mod_noop_right(c, b, q());
}

proof fn lemma_modeq_mod(a: int)
    ensures
        modeq(a % q(), a),
{
    vstd::arithmetic::div_mod::lemma_mod_twice(a, q());
}

/// The root of block b after k layers: that block holds the input reduced
/// modulo X^n - block_root(k, b), n being the block size.
pub open spec fn block_root(k: int, b: int) -> int {
    if k <= 0 { q() - 1 } else if b % 2 == 0 { zeta(lbase(k - 1) + b / 2) } else { q() - zeta(lbase(k - 1) + b / 2) }
}

/// The block size after k layers.
pub open spec fn bsize(k: int) -> int {
    if k >= 8 { 1 } else { 2 * llen(k) }
}

/// Multiplication by X in every block after k layers: each block is shifted up
/// by one, its last coefficient coming back first times the block's root.
pub open spec fn xshift(w: Seq<int>, k: int) -> Seq<int> {
    Seq::new(256, |i: int| {
        let n = bsize(k);
        let b = i / n;
        let p = i % n;
        if p > 0 { w[i - 1] } else { (block_root(k, b) * w[i + n - 1]) % q() }
    })
}

/// The zeta of block b of layer k squares to the block's root.
#[verifier::spinoff_prover]
proof fn lemma_block_zeta(k: int, b: int)
    requires
        0 <= k < 8,
        0 <= b < lbase(k),
    ensures
        (zeta(lbase(k) + b) * zeta(lbase(k) + b)) % q() == block_root(k, b),
        block_root(k + 1, 2 * b) == zeta(lbase(k) + b),
        block_root(k + 1, 2 * b + 1) == q() - zeta(lbase(k) + b),
{
    lemma_layer_consts(k);
    let m = lbase(k) + b;
    lemma_zeta_square(m);
    if k > 0 {
        lemma_layer_consts(k - 1);
        assert(lbase(k) == 2 * lbase(k - 1));
        assert(m / 2 == lbase(k - 1) + b / 2 && m % 2 == b % 2) by {
            lemma_fundamental_div_mod(b, 2);
            lemma_fundamental_div_mod_converse(m, 2, lbase(k - 1) + b / 2, b % 2);
        }
    } else {
        assert(lbase(0) == 1);
    }
    assert((2 * b) / 2 == b && (2 * b) % 2 == 0) by {
        lemma_fundamental_div_mod_converse(2 * b, 2, b, 0);
    }
    assert((2 * b + 1) / 2 == b && (2 * b + 1) % 2 == 1) by {
        lemma_fundamental_div_mod_converse(2 * b + 1, 2, b, 1);
    }
}

/// i sits at position p of block b for blocks of n.
proof fn lemma_pos(i: int, n: int, b: int, p: int)
    requires
        n > 0,
        0 <= p < n,
        i == n * b + p,
    ensures
        i / n == b,
        i % n == p,
{
    assert(n * b == b * n) by (nonlinear_arith);
    lemma_fundamental_div_mod_converse(i, n, b, p);
}

/// The modular identities behind the wrapped coefficient of a layer.
#[verifier::spinoff_prover]
proof fn lemma_root_step(rho: int, z: int, x: int, y: int)
    requires
        (z * z) % q() == rho % q(),
    ensures
        modeq((rho * x) % q() + z * y, z * ((y + z * x) % q())),
        modeq((rho * x) % q() - z * y, (q() - z) * ((y - z * x) % q())),
{
    lemma_modeq_mod(rho * x);
    lemma_modeq_mod(y + z * x);
    lemma_modeq_mod(y - z * x);
    lemma_modeq_mul(z, (y + z * x) % q(), y + z * x);
    lemma_modeq_mul(q() - z, (y - z * x) % q(), y - z * x);
    assert(z * (y + z * x) == z * y + (z * z) * x) by (nonlinear_arith);
    assert((q() - z) * (y - z * x) == (z * z) * x - z * y + q() * (y - z * x)) by (nonlinear_arith);
    assert(modeq((z * z) * x, rho * x)) by {
        vstd::arithmetic::div_mod::lemma_mul_mod_noop_left(z * z, x, q());
        vstd::arithmetic::div_mod::lemma_mul_mod_noop_left(rho, x, q());
    }
    lemma_modeq_add((rho * x) % q(), (z * z) * x, z * y, z * y);
    assert(modeq((z * z) * x - z * y + q() * (y - z * x), (z * z) * x - z * y)) by {
        vstd::arithmetic::div_mod::lemma_mod_multiples_vanish(y - z * x, (z * z) * x - z * y, q());
    }
}

/// A layer maps multiplication by X in the blocks of its input to
/// multiplication by X in the blocks of its output.
#[verifier::spinoff_prover]
#[verifier::rlimit(50)]
proof fn lemma_layer_xshift(w: Seq<int>, k: int)
    requires
        0 <= k < 8,
    ensures
        congruent(ntt_layer(xshift(w, k), k), xshift(ntt_layer(w, k), k + 1)),
{
    let xs = xshift(w, k);
    let l = ntt_layer(w, k);
    let lhs = ntt_layer(xs, k);
    let rhs = xshift(l, k + 1);
    lemma_layer_consts(k);
    let len = llen(k);
    let n = 2 * len;
    assert(bsize(k) == n);
    assert(bsize(k + 1) == len) by {
        if k + 1 < 8 {
            lemma_layer_consts(k + 1);
        }
    }
    assert forall|i: int| #![trigger lhs[i], rhs[i]] 0 <= i < 256 implies lhs[i] % q() == rhs[i] % q() by {
        lemma_block_of(i, k);
        let b = i / n;
        let p = i % n;
        lemma_fundamental_div_mod(i, n);
        assert(i == n * b + p);
        let z = zeta(lbase(k) + b);
        lemma_block_zeta(k, b);
        let rho = block_root(k, b);
        assert(n * b == len * (2 * b) && len * (2 * b + 1) == n * b + len) by (nonlinear_arith)
            requires n == 2 * len;
        if p < len {
            lemma_pos(i, len, 2 * b, p);
            lemma_pos(i + len, n, b, p + len);
            assert(lhs[i] == (xs[i] + z * xs[i + len]) % q());
            assert(xs[i + len] == w[i + len - 1]);
            if p > 0 {
                lemma_pos(i - 1, n, b, p - 1);
                lemma_pos(i - 1 + len, n, b, p - 1 + len);
                assert(xs[i] == w[i - 1]);
                assert(rhs[i] == l[i - 1]);
                assert(l[i - 1] == (w[i - 1] + z * w[i - 1 + len]) % q());
            } else {
                lemma_pos(i + n - 1, n, b, n - 1);
                lemma_pos(i + len - 1, n, b, len - 1);
                assert(xs[i] == (rho * w[i + n - 1]) % q());
                assert(rhs[i] == (z * l[i + len - 1]) % q());
                assert(l[i + len - 1] == (w[i + len - 1] + z * w[i + len - 1 + len]) % q());
                lemma_root_step(rho, z, w[i + n - 1], w[i + len - 1]);
            }
        } else {
            lemma_pos(i, len, 2 * b + 1, p - len);
            lemma_pos(i - len, n, b, p - len);
            assert(lhs[i] == (xs[i - len] - z * xs[i]) % q());
            assert(xs[i] == w[i - 1]);
            if p > len {
                lemma_pos(i - 1, n, b, p - 1);
                lemma_pos(i - 1 - len, n, b, p - 1 - len);
                assert(xs[i - len] == w[i - len - 1]);
                assert(rhs[i] == l[i - 1]);
                assert(l[i - 1] == (w[i - 1 - len] - z * w[i - 1]) % q());
            } else {
                lemma_pos(i + len - 1, n, b, n - 1);
                lemma_pos(i - 1, n, b, len - 1);
                assert(xs[i - len] == (rho * w[i - len + n - 1]) % q());
                assert(rhs[i] == ((q() - z) * l[i + len - 1]) % q());
                assert(l[i + len - 1] == (w[i + len - 1 - len] - z * w[i + len - 1]) % q());
                lemma_root_step(rho, z, w[i + len - 1], w[i - 1]);
            }
        }
    }
}

} // verus!

verus! {

/// After k layers, the transform of X * w is X * (the transform of w) in every block.
#[verifier::spinoff_prover]
proof fn lemma_fwd_xshift(w: Seq<int>, k: int)
    requires
        0 <= k <= 8,
    ensures
        congruent(fwd(xshift(w, 0), k), xshift(fwd(w, k), k)),
    decreases k,
{
    if k == 0 {
        lemma_congruent_refl(xshift(w, 0));
    } else {
        lemma_fwd_xshift(w, k - 1);
        lemma_layer_congruent(fwd(xshift(w, 0), k - 1), xshift(fwd(w, k - 1), k - 1), k - 1);
        lemma_layer_xshift(fwd(w, k - 1), k - 1);
    }
}

/// Multiplication by X modulo X^256 + 1.
pub open spec fn mulx(h: Seq<int>) -> Seq<int> {
    Seq::new(256, |i: int| if i == 0 { -h[255] } else { h[i - 1] })
}

/// The transform of X * w: each coefficient of the transform of w times the
/// root of its position.
#[verifier::spinoff_prover]
pub proof fn lemma_ntt_mulx(w: Seq<int>)
    ensures
        forall|i: int| 0 <= i < 256 ==> #[trigger] ntt_spec(mulx(w))[i] == (block_root(8, i) * ntt_spec(w)[i]) % q(),
{
    let xs = xshift(w, 0);
    assert(bsize(0) == 256);
    assert(congruent(mulx(w), xs)) by {
        assert forall|i: int| #![trigger mulx(w)[i], xs[i]] 0 <= i < 256 implies mulx(w)[i] % q() == xs[i] % q() by {
            lemma_pos(i, 256, 0, i);
            if i == 0 {
                lemma_pos(255, 256, 0, 255);
                assert(xs[0] == ((q() - 1) * w[255]) % q());
                assert((q() - 1) * w[255] == -w[255] + q() * w[255]) by (nonlinear_arith);
                vstd::arithmetic::div_mod::lemma_mod_multiples_vanish(w[255], -w[255], q());
                lemma_modeq_mod((q() - 1) * w[255]);
            }
        }
    }
    lemma_ntt_congruent(mulx(w), xs);
    lemma_fwd_xshift(w, 8);
    let u = fwd(w, 8);
    lemma_layers_reduced(fwd(xs, 7), 7);
    assert forall|i: int| 0 <= i < 256 implies #[trigger] ntt_spec(mulx(w))[i] == (block_root(8, i) * ntt_spec(w)[i]) % q() by {
        lemma_pos(i, 1, i, 0);
        assert(xshift(u, 8)[i] == (block_root(8, i) * u[i]) % q());
        assert(fwd(xs, 8)[i] % q() == xshift(u, 8)[i] % q());
        vstd::arithmetic::div_mod::lemma_small_mod(fwd(xs, 8)[i] as nat, q() as nat);
        lemma_modeq_mod(block_root(8, i) * u[i]);
    }
}

/// The unit polynomial 1.
pub open spec fn unit_poly() -> Seq<int> {
    Seq::new(256, |i: int| if i == 0 { 1int } else { 0int })
}

#[verifier::spinoff_prover]
proof fn lemma_fwd_unit(k: int)
    requires
        0 <= k <= 8,
    ensures
        forall|i: int| 0 <= i < 256 ==> #[trigger] fwd(unit_poly(), k)[i] == if i % bsize(k) == 0 { 1int } else { 0int },
    decreases k,
{
    if k == 0 {
        assert forall|i: int| 0 <= i < 256 implies #[trigger] fwd(unit_poly(), k)[i] == if i % bsize(k) == 0 { 1int } else { 0int } by {
            lemma_pos(i, 256, 0, i);
        }
    } else {
        lemma_fwd_unit(k - 1);
        let kk = k - 1;
        lemma_layer_consts(kk);
        let len = llen(kk);
        let n = 2 * len;
        let v = fwd(unit_poly(), kk);
        assert(bsize(kk) == n);
        assert(bsize(k) == len) by {
            if k < 8 {
                lemma_layer_consts(k);
            }
        }
        assert forall|i: int| 0 <= i < 256 implies #[trigger] fwd(unit_poly(), k)[i] == if i % bsize(k) == 0 { 1int } else { 0int } by {
            lemma_block_of(i, kk);
            let b = i / n;
            let p = i % n;
            lemma_fundamental_div_mod(i, n);
            assert(n * b == len * (2 * b) && len * (2 * b + 1) == n * b + len) by (nonlinear_arith)
                requires n == 2 * len;
            let z = zeta(lbase(kk) + b);
            if p < len {
                lemma_pos(i, len, 2 * b, p);
                lemma_pos(i + len, n, b, p + len);
                assert(v[i + len] == 0);
                assert(fwd(unit_poly(), k)[i] == (v[i] + z * v[i + len]) % q());
                assert(z * 0 == 0);
            } else {
                lemma_pos(i, len, 2 * b + 1, p - len);
                lemma_pos(i - len, n, b, p - len);
                assert(v[i] == 0);
                assert(fwd(unit_poly(), k)[i] == (v[i - len] - z * v[i]) % q());
                assert(z * 0 == 0);
            }
        }
    }
}

/// The transform of 1 is 1 at every position.
proof fn lemma_ntt_unit()
    ensures
        forall|i: int| 0 <= i < 256 ==> #[trigger] ntt_spec(unit_poly())[i] == 1,
{
    lemma_fwd_unit(8);
    assert forall|i: int| 0 <= i < 256 implies #[trigger] ntt_spec(unit_poly())[i] == 1 by {
        lemma_pos(i, 1, i, 0);
    }
}

/// The zero polynomial.
pub open spec fn zero_poly() -> Seq<int> {
    Seq::new(256, |i: int| 0int)
}

#[verifier::spinoff_prover]
proof fn lemma_fwd_zero(k: int)
    requires
        0 <= k <= 8,
    ensures
        fwd(zero_poly(), k) == zero_poly(),
    decreases k,
{
    if k > 0 {
        lemma_fwd_zero(k - 1);
        let kk = k - 1;
        assert forall|i: int| 0 <= i < 256 implies #[trigger] ntt_layer(zero_poly(), kk)[i] == 0 by {
            lemma_block_of(i, kk);
            let len = llen(kk);
            let z = zeta(lbase(kk) + i / (2 * len));
            assert(z * 0 == 0) by (nonlinear_arith);
            if i % (2 * len) < len {
                assert(zero_poly()[i] == 0 && zero_poly()[i + len] == 0);
            } else {
                assert(zero_poly()[i] == 0 && zero_poly()[i - len] == 0);
            }
        }
        assert(ntt_layer(zero_poly(), kk) =~= zero_poly());
    }
}

/// The transform commutes with multiplication by a constant.
proof fn lemma_ntt_scale(v: Seq<int>, c: int)
    requires
        v.len() == 256,
    ensures
        ntt_spec(scale(v, c)) == scale(ntt_spec(v), c),
{
    lemma_fwd_split(scale(v, c), 0);
    lemma_fwd_split(v, 0);
    lemma_fwd_rest_scale(v, c, 0);
}

} // verus!

verus! {

/// The product of a and b in Z[X] / (X^256 + 1) by Horner's rule on a, from
/// coefficient j on: a[j] * b + X * (the product from j + 1 on).
pub open spec fn horner(a: Seq<int>, b: Seq<int>, j: int) -> Seq<int>
    decreases 256 - j,
{
    if j >= 256 {
        zero_poly()
    } else {
        let h = mulx(horner(a, b, j + 1));
        Seq::new(256, |k: int| a[j] * b[k] + h[k])
    }
}

/// The product of a and b in Z[X] / (X^256 + 1).
pub open spec fn negacyclic(a: Seq<int>, b: Seq<int>) -> Seq<int> {
    horner(a, b, 0)
}

/// With b = 1, Horner's rule from j on gives a shifted down by j.
#[verifier::spinoff_prover]
proof fn lemma_horner_unit(a: Seq<int>, j: int)
    requires
        0 <= j <= 256,
    ensures
        forall|i: int| 0 <= i < 256 ==> #[trigger] horner(a, unit_poly(), j)[i] == if i < 256 - j { a[i + j] } else { 0 },
    decreases 256 - j,
{
    if j < 256 {
        lemma_horner_unit(a, j + 1);
        let u = horner(a, unit_poly(), j + 1);
        assert forall|i: int| 0 <= i < 256 implies #[trigger] horner(a, unit_poly(), j)[i] == if i < 256 - j { a[i + j] } else { 0 } by {
            let aj = a[j];
            if i == 0 {
                assert(aj * 1 == aj);
                assert(u[255] == 0);
            } else {
                assert(aj * 0 == 0);
            }
        }
    }
}

/// The transform of a Horner product is the transform of the Horner sum of a
/// times the transform of b, coefficient by coefficient.
#[verifier::spinoff_prover]
proof fn lemma_horner_ntt(a: Seq<int>, b: Seq<int>, j: int)
    requires
        0 <= j <= 256,
        b.len() == 256,
    ensures
        forall|m: int| 0 <= m < 256 ==> #[trigger] ntt_spec(horner(a, b, j))[m]
            == (ntt_spec(horner(a, unit_poly(), j))[m] * ntt_spec(b)[m]) % q(),
    decreases 256 - j,
{
    if j == 256 {
        lemma_fwd_zero(8);
        assert forall|m: int| 0 <= m < 256 implies #[trigger] ntt_spec(horner(a, b, j))[m]
            == (ntt_spec(horner(a, unit_poly(), j))[m] * ntt_spec(b)[m]) % q() by {
            assert(0 * ntt_spec(b)[m] == 0);
        }
    } else {
        lemma_horner_ntt(a, b, j + 1);
        let aj = a[j];
        let h = horner(a, b, j + 1);
        let u = horner(a, unit_poly(), j + 1);
        lemma_horner_step(a, b, j);
        lemma_horner_step(a, unit_poly(), j);
        lemma_ntt_unit();
        lemma_ntt_mulx(h);
        lemma_ntt_mulx(u);
        let bh = ntt_spec(b);
        let e = ntt_spec(horner(a, b, j));
        let t = ntt_spec(horner(a, unit_poly(), j));
        assert forall|m: int| 0 <= m < 256 implies #[trigger] ntt_spec(horner(a, b, j))[m]
            == (ntt_spec(horner(a, unit_poly(), j))[m] * ntt_spec(b)[m]) % q() by {
            let r = block_root(8, m);
            let um = ntt_spec(u)[m];
            let hm = ntt_spec(h)[m];
            assert(hm == (um * bh[m]) % q());
            assert(e[m] == ((aj * bh[m]) % q() + (r * hm) % q()) % q());
            assert(t[m] == ((aj * 1) % q() + (r * um) % q()) % q());
            // e = aj * b + r * u * b and t * b = (aj + r * u) * b, modulo q
            lemma_modeq_mod(aj * bh[m]);
            lemma_modeq_mod(r * hm);
            lemma_modeq_mod(um * bh[m]);
            lemma_modeq_mul(r, hm, um * bh[m]);
            lemma_modeq_add((aj * bh[m]) % q(), aj * bh[m], (r * hm) % q(), r * (um * bh[m]));
            lemma_modeq_mod((aj * bh[m]) % q() + (r * hm) % q());
            lemma_modeq_mod(aj * 1);
            lemma_modeq_mod(r * um);
            lemma_modeq_add((aj * 1) % q(), aj, (r * um) % q(), r * um);
            lemma_modeq_mod((aj * 1) % q() + (r * um) % q());
            vstd::arithmetic::div_mod::lemma_mul_mod_noop_left(t[m], bh[m], q());
            vstd::arithmetic::div_mod::lemma_mul_mod_noop_left(aj + r * um, bh[m], q());
            assert((aj + r * um) * bh[m] == aj * bh[m] + r * (um * bh[m])) by (nonlinear_arith);
            assert(aj * 1 == aj);
            lemma_layers_reduced(fwd(horner(a, b, j), 7), 7);
            vstd::arithmetic::div_mod::lemma_small_mod(e[m] as nat, q() as nat);
        }
    }
}

/// One step of Horner's rule, seen by the transform: the transform of
/// a[j] * b + X * h is a[j] times that of b plus that of X * h.
#[verifier::spinoff_prover]
proof fn lemma_horner_step(a: Seq<int>, b: Seq<int>, j: int)
    requires
        0 <= j < 256,
        b.len() == 256,
    ensures
        ntt_spec(horner(a, b, j)) == crate::polynomial::add_spec(scale(ntt_spec(b), a[j]),
            ntt_spec(mulx(horner(a, b, j + 1)))),
{
    let aj = a[j];
    let mh = mulx(horner(a, b, j + 1));
    let s = crate::polynomial::add_spec(scale(b, aj), mh);
    assert(congruent(horner(a, b, j), s)) by {
        assert forall|k: int| #![trigger horner(a, b, j)[k], s[k]] 0 <= k < 256 implies horner(a, b, j)[k] % q() == s[k] % q() by {
            lemma_modeq_mod(aj * b[k]);
            lemma_modeq_add((aj * b[k]) % q(), aj * b[k], mh[k], mh[k]);
            lemma_modeq_mod((aj * b[k]) % q() + mh[k]);
        }
    }
    lemma_ntt_congruent(horner(a, b, j), s);
    lemma_ntt_additive(scale(b, aj), mh);
    lemma_ntt_scale(b, aj);
}

/// The convolution theorem (FIPS 204, Section 7.5): the inverse transform of
/// the coefficient-wise product of two transforms is the product of the two
/// polynomials in Z_q[X] / (X^256 + 1).
#[verifier::spinoff_prover]
pub proof fn lemma_ntt_multiplies(a: Seq<int>, b: Seq<int>)
    requires
        a.len() == 256,
        b.len() == 256,
    ensures
        ntt_spec(negacyclic(a, b)) == crate::polynomial::pointwise_spec(ntt_spec(a), ntt_spec(b)),
        invntt_spec(crate::polynomial::pointwise_spec(ntt_spec(a), ntt_spec(b)))
            == crate::polynomial::reduce_spec(negacyclic(a, b)),
{
    lemma_horner_ntt(a, b, 0);
    lemma_horner_unit(a, 0);
    assert(congruent(horner(a, unit_poly(), 0), a)) by {
        assert forall|i: int| #![trigger horner(a, unit_poly(), 0)[i], a[i]] 0 <= i < 256 implies
            horner(a, unit_poly(), 0)[i] % q() == a[i] % q() by {}
    }
    lemma_ntt_congruent(horner(a, unit_poly(), 0), a);
    let p = crate::polynomial::pointwise_spec(ntt_spec(a), ntt_spec(b));
    let n = negacyclic(a, b);
    assert(ntt_spec(n) =~= p);
    crate::ntt::lemma_ntt_of_reduced(n);
    lemma_ntt_roundtrip(crate::polynomial::reduce_spec(n));
}

} // verus!
