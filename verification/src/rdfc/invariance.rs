//! The canonical form depends only on the structure of a dataset: renaming
//! blank nodes and listing the quads in another order leave it unchanged.

use vstd::prelude::*;
use crate::rdfc::{lex_lt, lemma_lex_order, sorted_texts, insert_sorted, sort_spec, lemma_sort_sorted, QuadView, TermView,
    quad_term, term_pairs, keys_upto, mentions_upto, blank_keys, mentions, first_degree_hash_spec, relabel_az, quad_text,
    Quad, index_keys, index_lookup, index_of_dataset, quad_views, fd_groups, group_pos, group_add, IdentifierIssuer,
    rename_all, rename_quad, rename_term, map_groups, all_singletons, unique_ids, canonical_ids, canonical_text,
    relabel_canon, relabel_canon_term, within, concat_spec, decimal_spec, canon_label, ascii_ws, parse_quad_spec,
    parse_nquads_spec, lemma_sort_members};
use crate::rdfc::reparse::{quad_ok, term_ok, label_ok, lemma_reparse, lemma_parse_quad_line};

verus! {

broadcast use vstd::seq_lib::group_to_multiset_ensures;

// ---------------------------------------------------------------------------
// Code point order is total
// ---------------------------------------------------------------------------

pub proof fn lemma_lex_total(a: Seq<char>, b: Seq<char>)
    ensures
        !lex_lt(a, b) && !lex_lt(b, a) ==> a == b,
    decreases a.len(),
{
    if a.len() > 0 && b.len() > 0 {
        crate::rdfc::lemma_char_code(a[0]);
        crate::rdfc::lemma_char_code(b[0]);
        if a[0] == b[0] {
            lemma_lex_total(a.drop_first(), b.drop_first());
            if a.drop_first() == b.drop_first() {
                assert(a =~= seq![a[0]] + a.drop_first());
                assert(b =~= seq![b[0]] + b.drop_first());
            }
        }
    } else {
        if a.len() == 0 && b.len() == 0 {
            assert(a =~= b);
        }
    }
}

pub proof fn lemma_lex_irrefl(a: Seq<char>)
    ensures
        !lex_lt(a, a),
{
    lemma_lex_order(a, a, a);
}

proof fn lemma_lex_trans(a: Seq<char>, b: Seq<char>, c: Seq<char>)
    ensures
        lex_lt(a, b) && lex_lt(b, c) ==> lex_lt(a, c),
{
    lemma_lex_order(a, c, b);
    lemma_lex_order(b, c, c);
}

// ---------------------------------------------------------------------------
// Sorting a permutation
// ---------------------------------------------------------------------------

proof fn lemma_insert_sorted_multiset(s: Seq<Seq<char>>, x: Seq<char>)
    ensures
        insert_sorted(s, x).to_multiset() =~= s.to_multiset().insert(x),
    decreases s.len(),
{
    broadcast use vstd::multiset::group_multiset_axioms;
    if s.len() == 0 || !lex_lt(x, s.last()) {
    } else {
        lemma_insert_sorted_multiset(s.drop_last(), x);
        assert(s.drop_last().push(s.last()) =~= s);
    }
}

pub proof fn lemma_sort_multiset(s: Seq<Seq<char>>)
    ensures
        sort_spec(s).to_multiset() =~= s.to_multiset(),
    decreases s.len(),
{
    broadcast use vstd::multiset::group_multiset_axioms;
    if s.len() > 0 {
        lemma_sort_multiset(s.drop_last());
        lemma_insert_sorted_multiset(sort_spec(s.drop_last()), s.last());
        assert(s.drop_last().push(s.last()) =~= s);
    }
}

/// Two sequences of texts in code point order with the same elements, counted
/// with multiplicity, are equal.
proof fn lemma_sorted_unique(s: Seq<Seq<char>>, t: Seq<Seq<char>>)
    requires
        sorted_texts(s),
        sorted_texts(t),
        s.to_multiset() == t.to_multiset(),
    ensures
        s == t,
    decreases s.len(),
{
    broadcast use vstd::multiset::group_multiset_axioms;
    vstd::seq_lib::to_multiset_len(s);
    vstd::seq_lib::to_multiset_len(t);
    assert(s.len() == t.len());
    if s.len() == 0 {
        assert(s =~= t);
    } else {
        let n = s.len() - 1;
        let x = s.last();
        let y = t.last();
        assert(s.to_multiset().count(x) > 0);
        assert(t.contains(x));
        let j = choose|j: int| 0 <= j < t.len() && t[j] == x;
        assert(t.to_multiset().count(y) > 0);
        assert(s.contains(y));
        let i = choose|i: int| 0 <= i < s.len() && s[i] == y;
        if j < n {
            assert(!lex_lt(t[n], t[j]));
        }
        if i < n {
            assert(!lex_lt(s[n], s[i]));
        }
        lemma_lex_total(x, y);
        assert(x == y);
        let s2 = s.drop_last();
        let t2 = t.drop_last();
        assert(s2 =~= s.remove(n));
        assert(t2 =~= t.remove(n));
        assert(s2.to_multiset() == t2.to_multiset());
        assert(sorted_texts(s2)) by {
            assert forall|a: int, b: int| 0 <= a < b < s2.len() implies !lex_lt(#[trigger] s2[b], #[trigger] s2[a]) by {
                assert(s2[a] == s[a] && s2[b] == s[b]);
            }
        }
        assert(sorted_texts(t2)) by {
            assert forall|a: int, b: int| 0 <= a < b < t2.len() implies !lex_lt(#[trigger] t2[b], #[trigger] t2[a]) by {
                assert(t2[a] == t[a] && t2[b] == t[b]);
            }
        }
        lemma_sorted_unique(s2, t2);
        assert(s =~= s2.push(x));
        assert(t =~= t2.push(y));
    }
}

/// Sorting gives the same result for any order of the same texts.
pub proof fn lemma_sort_perm(s: Seq<Seq<char>>, t: Seq<Seq<char>>)
    requires
        s.to_multiset() == t.to_multiset(),
    ensures
        sort_spec(s) == sort_spec(t),
{
    lemma_sort_multiset(s);
    lemma_sort_multiset(t);
    lemma_sort_sorted(s);
    lemma_sort_sorted(t);
    lemma_sorted_unique(sort_spec(s), sort_spec(t));
}

/// Mapping every element keeps two sequences permutations of each other.
pub proof fn lemma_map_perm<A, B>(s: Seq<A>, t: Seq<A>, g: spec_fn(A) -> B)
    requires
        s.to_multiset() == t.to_multiset(),
    ensures
        s.map_values(g).to_multiset() == t.map_values(g).to_multiset(),
    decreases s.len(),
{
    broadcast use vstd::multiset::group_multiset_axioms;
    vstd::seq_lib::to_multiset_len(s);
    vstd::seq_lib::to_multiset_len(t);
    assert(s.len() == t.len());
    if s.len() == 0 {
        assert(s.map_values(g) =~= t.map_values(g));
    } else {
        let n = s.len() - 1;
        let x = s.last();
        assert(s.to_multiset().count(x) > 0);
        assert(t.contains(x));
        let j = choose|j: int| 0 <= j < t.len() && t[j] == x;
        let s2 = s.drop_last();
        let t2 = t.remove(j);
        assert(s2 =~= s.remove(n));
        assert(s2.to_multiset() == t2.to_multiset());
        lemma_map_perm(s2, t2, g);
        assert(s.map_values(g) =~= s2.map_values(g).push(g(x)));
        let tm = t.map_values(g);
        assert(tm.remove(j) =~= t2.map_values(g));
        assert(tm[j] == g(x));
        assert(tm.to_multiset().count(g(x)) > 0);
        assert(tm.remove(j).to_multiset() == tm.to_multiset().remove(g(x)));
        assert(tm.to_multiset() =~= tm.to_multiset().remove(g(x)).insert(g(x)));
    }
}


// ---------------------------------------------------------------------------
// The quads that mention a blank node, for a dataset in another order
// ---------------------------------------------------------------------------

proof fn lemma_upto_agree(ps1: Seq<(TermView, QuadView)>, ps2: Seq<(TermView, QuadView)>, n: int, b: Seq<char>)
    requires
        0 <= n <= ps1.len(),
        n <= ps2.len(),
        forall|i: int| 0 <= i < n ==> ps1[i] == ps2[i],
    ensures
        mentions_upto(ps1, n, b) == mentions_upto(ps2, n, b),
        keys_upto(ps1, n) == keys_upto(ps2, n),
    decreases n,
{
    if n > 0 {
        lemma_upto_agree(ps1, ps2, n - 1, b);
        assert(ps1[n - 1] == ps2[n - 1]);
    }
}

proof fn lemma_mentions_concat_upto(a: Seq<QuadView>, c: Seq<QuadView>, x: Seq<char>, n: int)
    requires
        0 <= n <= 4 * c.len(),
    ensures
        mentions_upto(term_pairs(a + c), 4 * a.len() + n, x) == mentions(a, x) + mentions_upto(term_pairs(c), n, x),
    decreases n,
{
    let ac = a + c;
    let la = a.len() as int;
    if n == 0 {
        assert forall|i: int| 0 <= i < 4 * la implies term_pairs(ac)[i] == term_pairs(a)[i] by {
            assert(0 <= i / 4 < la);
            assert(ac[i / 4] == a[i / 4]);
        }
        lemma_upto_agree(term_pairs(ac), term_pairs(a), 4 * la, x);
        assert(mentions(a, x) + mentions_upto(term_pairs(c), 0, x) =~= mentions(a, x));
    } else {
        lemma_mentions_concat_upto(a, c, x, n - 1);
        let m = n - 1;
        assert((4 * la + m) / 4 == la + m / 4 && (4 * la + m) % 4 == m % 4);
        assert(0 <= m / 4 < c.len());
        assert(ac[la + m / 4] == c[m / 4]);
        assert(term_pairs(ac)[4 * la + m] == term_pairs(c)[m]);
        let prev = mentions_upto(term_pairs(c), m, x);
        assert((mentions(a, x) + prev).push(term_pairs(c)[m].1) =~= mentions(a, x) + prev.push(term_pairs(c)[m].1));
    }
}

/// The quads of a + c that mention x are those of a followed by those of c.
proof fn lemma_mentions_concat(a: Seq<QuadView>, c: Seq<QuadView>, x: Seq<char>)
    ensures
        mentions(a + c, x) == mentions(a, x) + mentions(c, x),
{
    lemma_mentions_concat_upto(a, c, x, 4 * c.len() as int);
    assert((a + c).len() == a.len() + c.len());
}

/// A dataset listed in another order mentions each blank node in the same
/// quads, counted with multiplicity.
pub proof fn lemma_mentions_perm(s: Seq<QuadView>, t: Seq<QuadView>, x: Seq<char>)
    requires
        s.to_multiset() == t.to_multiset(),
    ensures
        mentions(s, x).to_multiset() == mentions(t, x).to_multiset(),
    decreases s.len(),
{
    broadcast use vstd::multiset::group_multiset_axioms;
    vstd::seq_lib::to_multiset_len(s);
    vstd::seq_lib::to_multiset_len(t);
    if s.len() == 0 {
        assert(s =~= t);
    } else {
        let n = s.len() - 1;
        let q = s.last();
        assert(s.to_multiset().count(q) > 0);
        assert(t.contains(q));
        let j = choose|j: int| 0 <= j < t.len() && t[j] == q;
        let s2 = s.drop_last();
        let t2 = t.remove(j);
        assert(s2 =~= s.remove(n));
        assert(s2.to_multiset() == t2.to_multiset());
        lemma_mentions_perm(s2, t2, x);
        let t0 = t.subrange(0, j);
        let t1 = t.subrange(j + 1, t.len() as int);
        assert(s =~= s2 + seq![q]);
        assert(t =~= (t0 + seq![q]) + t1);
        assert(t2 =~= t0 + t1);
        lemma_mentions_concat(s2, seq![q], x);
        lemma_mentions_concat(t0 + seq![q], t1, x);
        lemma_mentions_concat(t0, seq![q], x);
        lemma_mentions_concat(t0, t1, x);
        let m0 = mentions(t0, x);
        let m1 = mentions(t1, x);
        let mq = mentions(seq![q], x);
        vstd::seq_lib::lemma_multiset_commutative(mentions(s2, x), mq);
        vstd::seq_lib::lemma_multiset_commutative(m0 + mq, m1);
        vstd::seq_lib::lemma_multiset_commutative(m0, mq);
        vstd::seq_lib::lemma_multiset_commutative(m0, m1);
        assert(mentions(t, x).to_multiset() =~= m0.to_multiset().add(mq.to_multiset()).add(m1.to_multiset()));
        assert(mentions(t2, x).to_multiset() =~= m0.to_multiset().add(m1.to_multiset()));
        assert(mentions(s, x).to_multiset() =~= mentions(s2, x).to_multiset().add(mq.to_multiset()));
    }
}

/// A label is a blank node of the first n terms exactly when it is mentioned there.
proof fn lemma_keys_mentions(ps: Seq<(TermView, QuadView)>, n: int, b: Seq<char>)
    ensures
        keys_upto(ps, n).contains(b) <==> mentions_upto(ps, n, b).len() > 0,
    decreases n,
{
    if n > 0 {
        lemma_keys_mentions(ps, n - 1, b);
        let k = keys_upto(ps, n - 1);
        match ps[n - 1].0 {
            TermView::Blank(c) => {
                if !k.contains(c) {
                    assert(k.push(c)[k.len() as int] == c);
                    if k.push(c).contains(b) && b != c {
                        let i = choose|i: int| 0 <= i < k.len() + 1 && k.push(c)[i] == b;
                        assert(k[i] == b);
                    }
                    if k.contains(b) {
                        let i = choose|i: int| 0 <= i < k.len() && k[i] == b;
                        assert(k.push(c)[i] == b);
                    }
                }
            },
            _ => {},
        }
    }
}

/// The blank nodes of a dataset are those that its quads mention.
pub proof fn lemma_blank_keys_mentions(qs: Seq<QuadView>, b: Seq<char>)
    ensures
        blank_keys(qs).contains(b) <==> mentions(qs, b).len() > 0,
{
    lemma_keys_mentions(term_pairs(qs), 4 * qs.len() as int, b);
}

/// The first-degree hash does not depend on the order of the quads.
pub proof fn lemma_first_degree_perm(ms1: Seq<QuadView>, ms2: Seq<QuadView>, b: Seq<char>)
    requires
        ms1.to_multiset() == ms2.to_multiset(),
    ensures
        first_degree_hash_spec(ms1, b) == first_degree_hash_spec(ms2, b),
{
    let g = |q: QuadView| quad_text(relabel_az(q, b));
    assert(Seq::new(ms1.len(), |k: int| quad_text(relabel_az(ms1[k], b))) =~= ms1.map_values(g));
    assert(Seq::new(ms2.len(), |k: int| quad_text(relabel_az(ms2[k], b))) =~= ms2.map_values(g));
    lemma_map_perm(ms1, ms2, g);
    lemma_sort_perm(ms1.map_values(g), ms2.map_values(g));
}


// ---------------------------------------------------------------------------
// First-degree groups when the first-degree hashes are distinct
// ---------------------------------------------------------------------------

/// The first-degree hash of blank node b of a dataset.
pub open spec fn fd_hash(qs: Seq<QuadView>, b: Seq<char>) -> Seq<char> {
    first_degree_hash_spec(mentions(qs, b), b)
}

/// Distinct blank nodes of the dataset have distinct first-degree hashes.
pub open spec fn first_degree_distinct(qs: Seq<QuadView>) -> bool {
    forall|b1: Seq<char>, b2: Seq<char>| blank_keys(qs).contains(b1) && blank_keys(qs).contains(b2) && b1 != b2
        ==> #[trigger] fd_hash(qs, b1) != #[trigger] fd_hash(qs, b2)
}

/// Groups in strictly increasing hash order.
pub open spec fn strict_groups(g: Seq<(Seq<char>, Seq<Seq<char>>)>) -> bool {
    forall|i: int, j: int| 0 <= i < j < g.len() ==> lex_lt(#[trigger] g[i].0, #[trigger] g[j].0)
}

proof fn lemma_group_pos_facts(g: Seq<(Seq<char>, Seq<Seq<char>>)>, h: Seq<char>, k: int)
    requires
        0 <= k <= g.len(),
    ensures
        k <= group_pos(g, h, k) <= g.len(),
        forall|i: int| k <= i < group_pos(g, h, k) ==> lex_lt(#[trigger] g[i].0, h),
        group_pos(g, h, k) < g.len() ==> !lex_lt(g[group_pos(g, h, k)].0, h),
    decreases g.len() - k,
{
    if !(k < 0 || k >= g.len() || !lex_lt(g[k].0, h)) {
        lemma_group_pos_facts(g, h, k + 1);
    }
}

/// The index's list for its key at position k is the dataset's mentions of it.
proof fn lemma_lookup_key(idx: Seq<(String, Vec<Quad>)>, qs: Seq<QuadView>, k: int)
    requires
        index_of_dataset(idx, qs),
        0 <= k < idx.len(),
    ensures
        index_keys(idx).no_duplicates(),
        blank_keys(qs).contains(index_keys(idx)[k]),
        index_lookup(idx, index_keys(idx)[k]) == mentions(qs, index_keys(idx)[k]),
{
    crate::rdfc::lemma_keys_no_dup(term_pairs(qs), 4 * qs.len() as int);
    assert(index_keys(idx).len() == idx.len());
    crate::rdfc::lemma_key_position(idx, index_keys(idx)[k], k);
    assert(blank_keys(qs)[k] == index_keys(idx)[k]);
}

/// With distinct first-degree hashes, the first b groups are one per key,
/// in strictly increasing hash order.
proof fn lemma_fd_groups_distinct(idx: Seq<(String, Vec<Quad>)>, qs: Seq<QuadView>, b: int)
    requires
        index_of_dataset(idx, qs),
        first_degree_distinct(qs),
        0 <= b <= idx.len(),
    ensures
        strict_groups(fd_groups(idx, b)),
        fd_groups(idx, b).len() == b,
        forall|a: int| 0 <= a < b ==> exists|k: int| 0 <= k < b && #[trigger] fd_groups(idx, b)[a]
            == (fd_hash(qs, index_keys(idx)[k]), seq![index_keys(idx)[k]]),
        forall|k: int| 0 <= k < b ==> fd_groups(idx, b).contains(
            (fd_hash(qs, #[trigger] index_keys(idx)[k]), seq![index_keys(idx)[k]])),
    decreases b,
{
    assert(index_keys(idx).len() == idx.len());
    if b > 0 {
        lemma_fd_groups_distinct(idx, qs, b - 1);
        let g = fd_groups(idx, b - 1);
        let keys = index_keys(idx);
        let id = keys[b - 1];
        lemma_lookup_key(idx, qs, b - 1);
        let h = fd_hash(qs, id);
        assert(first_degree_hash_spec(index_lookup(idx, id), id) == h);
        assert forall|a: int| 0 <= a < g.len() implies #[trigger] g[a].0 != h by {
            let k = choose|k: int| 0 <= k < b - 1 && g[a] == (fd_hash(qs, keys[k]), seq![keys[k]]);
            lemma_lookup_key(idx, qs, k);
            assert(keys[k] != id);
        }
        lemma_group_pos_facts(g, h, 0);
        let p = group_pos(g, h, 0);
        let e = (h, seq![id]);
        let r = g.insert(p, e);
        assert(!(p < g.len() && g[p].0 == h));
        assert(fd_groups(idx, b) == r);
        assert(r.len() == b);
        assert forall|i: int| 0 <= i < r.len() implies r[i] == (if i < p { g[i] } else if i == p { e } else { g[i - 1] }) by {
        }
        if p < g.len() {
            lemma_lex_total(g[p].0, h);
        }
        assert forall|i: int, j: int| 0 <= i < j < r.len() implies lex_lt(#[trigger] r[i].0, #[trigger] r[j].0) by {
            if i == p {
                lemma_lex_trans(h, g[p].0, g[j - 1].0);
            } else if j == p {
            } else if i < p && j > p {
                lemma_lex_trans(g[i].0, h, g[j - 1].0);
                lemma_lex_trans(h, g[p].0, g[j - 1].0);
            }
        }
        assert forall|a: int| 0 <= a < b implies exists|k: int| 0 <= k < b && #[trigger] r[a]
            == (fd_hash(qs, keys[k]), seq![keys[k]]) by {
            if a < p {
                let k = choose|k: int| 0 <= k < b - 1 && g[a] == (fd_hash(qs, keys[k]), seq![keys[k]]);
            } else if a == p {
                assert(r[a] == (fd_hash(qs, keys[b - 1]), seq![keys[b - 1]]));
            } else {
                let k = choose|k: int| 0 <= k < b - 1 && g[a - 1] == (fd_hash(qs, keys[k]), seq![keys[k]]);
            }
        }
        assert forall|k: int| 0 <= k < b implies r.contains((fd_hash(qs, #[trigger] keys[k]), seq![keys[k]])) by {
            if k == b - 1 {
                assert(r[p] == e);
            } else {
                assert(g.contains((fd_hash(qs, keys[k]), seq![keys[k]])));
                let a = choose|a: int| 0 <= a < g.len() && g[a] == (fd_hash(qs, keys[k]), seq![keys[k]]);
                if a < p {
                    assert(r[a] == g[a]);
                } else {
                    assert(r[a + 1] == g[a]);
                }
            }
        }
    }
}

/// Two group sequences in strictly increasing hash order with the same
/// members are equal.
proof fn lemma_strict_unique(g1: Seq<(Seq<char>, Seq<Seq<char>>)>, g2: Seq<(Seq<char>, Seq<Seq<char>>)>)
    requires
        strict_groups(g1),
        strict_groups(g2),
        forall|e: (Seq<char>, Seq<Seq<char>>)| g1.contains(e) <==> g2.contains(e),
    ensures
        g1 == g2,
    decreases g1.len(),
{
    if g1.len() == 0 {
        if g2.len() > 0 {
            assert(g2.contains(g2[0]));
        }
        assert(g1 =~= g2);
    } else if g2.len() == 0 {
        assert(g1.contains(g1[0]));
    } else {
        let n1 = g1.len() - 1;
        let n2 = g2.len() - 1;
        let x = g1[n1];
        let y = g2[n2];
        assert(g1.contains(x));
        assert(g2.contains(y));
        let j = choose|j: int| 0 <= j < g2.len() && g2[j] == x;
        let i = choose|i: int| 0 <= i < g1.len() && g1[i] == y;
        lemma_lex_irrefl(x.0);
        lemma_lex_irrefl(y.0);
        lemma_lex_order(x.0, y.0, y.0);
        if j < n2 {
            assert(lex_lt(x.0, y.0));
            if i < n1 {
                assert(lex_lt(y.0, x.0));
            }
        }
        assert(j == n2);
        assert(x == y);
        let h1 = g1.drop_last();
        let h2 = g2.drop_last();
        assert forall|e: (Seq<char>, Seq<Seq<char>>)| h1.contains(e) <==> h2.contains(e) by {
            if h1.contains(e) {
                let a = choose|a: int| 0 <= a < h1.len() && h1[a] == e;
                assert(g1[a] == e);
                assert(lex_lt(g1[a].0, g1[n1].0));
                assert(g2.contains(e));
                let c = choose|c: int| 0 <= c < g2.len() && g2[c] == e;
                assert(c != n2);
                assert(h2[c] == e);
            }
            if h2.contains(e) {
                let a = choose|a: int| 0 <= a < h2.len() && h2[a] == e;
                assert(g2[a] == e);
                assert(lex_lt(g2[a].0, g2[n2].0));
                assert(g1.contains(e));
                let c = choose|c: int| 0 <= c < g1.len() && g1[c] == e;
                assert(c != n1);
                assert(h1[c] == e);
            }
        }
        assert(strict_groups(h1)) by {
            assert forall|a: int, c: int| 0 <= a < c < h1.len() implies lex_lt(#[trigger] h1[a].0, #[trigger] h1[c].0) by {
                assert(h1[a] == g1[a] && h1[c] == g1[c]);
            }
        }
        assert(strict_groups(h2)) by {
            assert forall|a: int, c: int| 0 <= a < c < h2.len() implies lex_lt(#[trigger] h2[a].0, #[trigger] h2[c].0) by {
                assert(h2[a] == g2[a] && h2[c] == g2[c]);
            }
        }
        lemma_strict_unique(h1, h2);
        assert(g1 =~= h1.push(x));
        assert(g2 =~= h2.push(y));
    }
}


// ---------------------------------------------------------------------------
// The canonical form of a renamed, reordered dataset
// ---------------------------------------------------------------------------

/// A quad whose blank nodes all have canonical identifiers is relabelled to the
/// same quad when it and the issuer are renamed together.
pub proof fn lemma_relabel_rename_quad(q: QuadView, f: spec_fn(Seq<char>) -> Seq<char>, iss1: IdentifierIssuer,
    iss2: IdentifierIssuer)
    requires
        vstd::relations::injective(f),
        iss1.wf(),
        iss2.prefix@ == iss1.prefix@,
        iss2.ids() == iss1.ids().map_values(f),
        forall|t: int| 0 <= t < 4 ==> (#[trigger] quad_term(q, t) matches TermView::Blank(c) ==> iss1.ids().contains(c)),
    ensures
        relabel_canon(rename_quad(q, f), iss2) == relabel_canon(q, iss1),
{
    assert forall|t: int| 0 <= t < 4 implies #[trigger] relabel_canon_term(rename_term(quad_term(q, t), f), iss2)
        == relabel_canon_term(quad_term(q, t), iss1) by {
        match quad_term(q, t) {
            TermView::Blank(c) => {
                crate::rdfc::lemma_canon_label_rename(iss1, iss2, f, c);
            },
            _ => {},
        }
    }
    assert(relabel_canon_term(rename_term(quad_term(q, 0), f), iss2) == relabel_canon_term(quad_term(q, 0), iss1));
    assert(relabel_canon_term(rename_term(quad_term(q, 1), f), iss2) == relabel_canon_term(quad_term(q, 1), iss1));
    assert(relabel_canon_term(rename_term(quad_term(q, 2), f), iss2) == relabel_canon_term(quad_term(q, 2), iss1));
    assert(relabel_canon_term(rename_term(quad_term(q, 3), f), iss2) == relabel_canon_term(quad_term(q, 3), iss1));
}

/// Facts on the blank nodes of a dataset qs2 that lists the quads of qs,
/// renamed by f, in some order.
proof fn lemma_renamed_perm_nodes(qs: Seq<QuadView>, f: spec_fn(Seq<char>) -> Seq<char>, qs2: Seq<QuadView>)
    requires
        vstd::relations::injective(f),
        qs2.to_multiset() == rename_all(qs, f).to_multiset(),
    ensures
        forall|c: Seq<char>| #[trigger] blank_keys(qs2).contains(c) <==> blank_keys(qs).map_values(f).contains(c),
        forall|b: Seq<char>| #[trigger] fd_hash(qs2, f(b)) == fd_hash(qs, b),
{
    let rq = rename_all(qs, f);
    crate::rdfc::lemma_keys_rename(qs, f, 4 * qs.len() as int);
    assert(rq.len() == qs.len());
    assert forall|c: Seq<char>| #[trigger] blank_keys(qs2).contains(c) <==> blank_keys(qs).map_values(f).contains(c) by {
        lemma_mentions_perm(qs2, rq, c);
        vstd::seq_lib::to_multiset_len(mentions(qs2, c));
        vstd::seq_lib::to_multiset_len(mentions(rq, c));
        lemma_blank_keys_mentions(qs2, c);
        lemma_blank_keys_mentions(rq, c);
    }
    assert forall|b: Seq<char>| #[trigger] fd_hash(qs2, f(b)) == fd_hash(qs, b) by {
        lemma_mentions_perm(qs2, rq, f(b));
        lemma_first_degree_perm(mentions(qs2, f(b)), mentions(rq, f(b)), f(b));
        crate::rdfc::lemma_mentions_rename(qs, f, 4 * qs.len() as int, b);
        crate::rdfc::lemma_first_degree_rename(mentions(qs, b), b, f);
    }
}

/// Canonical labels depend only on the structure of the dataset (RDFC-1.0):
/// when the blank nodes of qs have distinct first-degree hashes, a dataset qs2
/// that lists the quads of qs with every blank node renamed by an injective f,
/// in any order, has the same canonical form. The issuers and indexes are
/// those that `canonicalize` describes.
pub proof fn lemma_canonical_text_invariant(qs: Seq<QuadView>, f: spec_fn(Seq<char>) -> Seq<char>,
    qs2: Seq<QuadView>, iss1: IdentifierIssuer, idx1: Seq<(String, Vec<Quad>)>, iss2: IdentifierIssuer,
    idx2: Seq<(String, Vec<Quad>)>)
    requires
        vstd::relations::injective(f),
        qs2.to_multiset() == rename_all(qs, f).to_multiset(),
        first_degree_distinct(qs),
        index_of_dataset(idx1, qs),
        index_of_dataset(idx2, qs2),
        iss1.wf(),
        iss2.wf(),
        iss1.prefix@ == "c14n"@,
        iss2.prefix@ == "c14n"@,
        iss1.ids() == canonical_ids(idx1),
        iss2.ids() == canonical_ids(idx2),
        within(blank_keys(qs), iss1.ids()),
    ensures
        canonical_text(qs2, iss2) == canonical_text(qs, iss1),
{
    let rq = rename_all(qs, f);
    lemma_renamed_perm_nodes(qs, f, qs2);
    let k1 = blank_keys(qs);
    // The renamed, reordered dataset has distinct first-degree hashes too.
    assert(first_degree_distinct(qs2)) by {
        assert forall|c1: Seq<char>, c2: Seq<char>| blank_keys(qs2).contains(c1) && blank_keys(qs2).contains(c2)
            && c1 != c2 implies #[trigger] fd_hash(qs2, c1) != #[trigger] fd_hash(qs2, c2) by {
            assert(k1.map_values(f).contains(c1));
            assert(k1.map_values(f).contains(c2));
            let i1 = choose|i: int| 0 <= i < k1.map_values(f).len() && k1.map_values(f)[i] == c1;
            let i2 = choose|i: int| 0 <= i < k1.map_values(f).len() && k1.map_values(f)[i] == c2;
            assert(k1.contains(k1[i1]) && k1.contains(k1[i2]));
            assert(fd_hash(qs2, f(k1[i1])) == fd_hash(qs, k1[i1]));
            assert(fd_hash(qs2, f(k1[i2])) == fd_hash(qs, k1[i2]));
        }
    }
    let n1 = idx1.len() as int;
    let n2 = idx2.len() as int;
    lemma_fd_groups_distinct(idx1, qs, n1);
    lemma_fd_groups_distinct(idx2, qs2, n2);
    let g1 = fd_groups(idx1, n1);
    let g2 = fd_groups(idx2, n2);
    let mg = map_groups(g1, f);
    let keys1 = index_keys(idx1);
    let keys2 = index_keys(idx2);
    assert(keys1.len() == n1 && keys2.len() == n2);
    assert(strict_groups(mg)) by {
        assert forall|i: int, j: int| 0 <= i < j < mg.len() implies lex_lt(#[trigger] mg[i].0, #[trigger] mg[j].0) by {
            assert(mg[i].0 == g1[i].0 && mg[j].0 == g1[j].0);
        }
    }
    assert forall|e: (Seq<char>, Seq<Seq<char>>)| g2.contains(e) <==> mg.contains(e) by {
        if g2.contains(e) {
            let a = choose|a: int| 0 <= a < g2.len() && g2[a] == e;
            let k = choose|k: int| 0 <= k < n2 && #[trigger] g2[a] == (fd_hash(qs2, keys2[k]), seq![keys2[k]]);
            lemma_lookup_key(idx2, qs2, k);
            let c = keys2[k];
            assert(k1.map_values(f).contains(c));
            let i = choose|i: int| 0 <= i < k1.map_values(f).len() && k1.map_values(f)[i] == c;
            let b = k1[i];
            assert(keys1[i] == b);
            assert(g1.contains((fd_hash(qs, keys1[i]), seq![keys1[i]])));
            let a1 = choose|a1: int| 0 <= a1 < g1.len() && g1[a1] == (fd_hash(qs, keys1[i]), seq![keys1[i]]);
            assert(seq![b].map_values(f) =~= seq![f(b)]);
            assert(fd_hash(qs2, f(b)) == fd_hash(qs, b));
            assert(mg[a1] == e);
        }
        if mg.contains(e) {
            let a = choose|a: int| 0 <= a < mg.len() && mg[a] == e;
            let k = choose|k: int| 0 <= k < n1 && #[trigger] g1[a] == (fd_hash(qs, keys1[k]), seq![keys1[k]]);
            lemma_lookup_key(idx1, qs, k);
            let b = keys1[k];
            assert(seq![b].map_values(f) =~= seq![f(b)]);
            assert(e == (fd_hash(qs, b), seq![f(b)]));
            assert(k1[k] == b);
            assert(k1.map_values(f)[k] == f(b));
            assert(blank_keys(qs2).contains(f(b)));
            let m = choose|m: int| 0 <= m < keys2.len() && keys2[m] == f(b);
            assert(g2.contains((fd_hash(qs2, keys2[m]), seq![keys2[m]])));
            assert(fd_hash(qs2, f(b)) == fd_hash(qs, b));
        }
    }
    lemma_strict_unique(g2, mg);
    assert(all_singletons(g1)) by {
        assert forall|a: int| 0 <= a < g1.len() implies #[trigger] g1[a].1.len() == 1 by {
            let k = choose|k: int| 0 <= k < n1 && #[trigger] g1[a] == (fd_hash(qs, keys1[k]), seq![keys1[k]]);
        }
    }
    assert(all_singletons(g2)) by {
        assert forall|a: int| 0 <= a < g2.len() implies #[trigger] g2[a].1.len() == 1 by {
            let k = choose|k: int| 0 <= k < n2 && #[trigger] g2[a] == (fd_hash(qs2, keys2[k]), seq![keys2[k]]);
        }
    }
    crate::rdfc::lemma_canonical_ids_unique(idx1);
    crate::rdfc::lemma_canonical_ids_unique(idx2);
    crate::rdfc::lemma_unique_ids_rename(g1, f, g1.len() as int);
    assert(iss2.ids() == iss1.ids().map_values(f));
    // Each quad keeps its canonical text.
    let t1 = |q: QuadView| quad_text(relabel_canon(q, iss1));
    let t2 = |q: QuadView| quad_text(relabel_canon(q, iss2));
    assert forall|k: int| 0 <= k < qs.len() implies #[trigger] t2(rq[k]) == t1(qs[k]) by {
        let q = qs[k];
        assert forall|t: int| 0 <= t < 4 implies (#[trigger] quad_term(q, t) matches TermView::Blank(c)
            ==> iss1.ids().contains(c)) by {
            match quad_term(q, t) {
                TermView::Blank(c) => {
                    vstd::arithmetic::div_mod::lemma_fundamental_div_mod_converse(4 * k + t, 4, k, t);
                    assert(term_pairs(qs)[4 * k + t].0 == quad_term(q, t));
                    crate::rdfc::lemma_key_contains(term_pairs(qs), 4 * qs.len() as int, 4 * k + t, c);
                    let jj = choose|jj: int| 0 <= jj < k1.len() && k1[jj] == c;
                    let ii = choose|ii: int| 0 <= ii < iss1.ids().len() && iss1.ids()[ii] == c;
                },
                _ => {},
            }
        }
        lemma_relabel_rename_quad(q, f, iss1, iss2);
    }
    assert(rq.map_values(t2) =~= qs.map_values(t1));
    lemma_map_perm(qs2, rq, t2);
    lemma_sort_perm(qs2.map_values(t2), qs.map_values(t1));
    assert(Seq::new(qs2.len(), |k: int| quad_text(relabel_canon(qs2[k], iss2))) =~= qs2.map_values(t2));
    assert(Seq::new(qs.len(), |k: int| quad_text(relabel_canon(qs[k], iss1))) =~= qs.map_values(t1));
}


// ---------------------------------------------------------------------------
// Canonicalizing the canonical form
// ---------------------------------------------------------------------------

proof fn lemma_decimal_shape(n: nat)
    ensures
        decimal_spec(n).len() >= 1,
        n >= 10 ==> decimal_spec(n).len() >= 2,
        decimal_spec(n).last() == (48 + n % 10) as char,
        n >= 10 ==> decimal_spec(n).drop_last() == decimal_spec(n / 10),
    decreases n,
{
    if n >= 10 {
        lemma_decimal_shape(n / 10);
        assert(decimal_spec(n) == decimal_spec(n / 10).push((48 + n % 10) as char));
        assert(decimal_spec(n / 10).push((48 + n % 10) as char).drop_last() =~= decimal_spec(n / 10));
    }
}

/// Distinct numbers have distinct decimal digits.
proof fn lemma_decimal_injective(m: nat, n: nat)
    ensures
        decimal_spec(m) == decimal_spec(n) ==> m == n,
    decreases n,
{
    if decimal_spec(m) == decimal_spec(n) {
        lemma_decimal_shape(m);
        lemma_decimal_shape(n);
        assert(((48 + m % 10) as char) as int == 48 + m % 10);
        assert(((48 + n % 10) as char) as int == 48 + n % 10);
        assert(m % 10 == n % 10);
        if m >= 10 && n >= 10 {
            lemma_decimal_injective(m / 10, n / 10);
        }
    }
}

/// The canonical relabelling of blank nodes under an issuer.
pub open spec fn canon_map(iss: IdentifierIssuer) -> spec_fn(Seq<char>) -> Seq<char> {
    |b: Seq<char>| canon_label(iss, b)
}

/// Distinct blank nodes get distinct canonical labels.
proof fn lemma_canon_map_injective(iss: IdentifierIssuer)
    requires
        iss.wf(),
        iss.prefix@ == "c14n"@,
    ensures
        vstd::relations::injective(canon_map(iss)),
{
    reveal_strlit("c14n");
    reveal_strlit("MISSING_");
    let ids = iss.ids();
    let p = iss.prefix@;
    assert forall|b1: Seq<char>, b2: Seq<char>| #[trigger] canon_map(iss)(b1) == #[trigger] canon_map(iss)(b2) implies b1 == b2 by {
        let l1 = canon_label(iss, b1);
        let l2 = canon_label(iss, b2);
        if ids.contains(b1) && ids.contains(b2) {
            let i1 = ids.index_of(b1);
            let i2 = ids.index_of(b2);
            assert(l1 == p + decimal_spec(i1 as nat));
            assert(l2 == p + decimal_spec(i2 as nat));
            assert(l1.subrange(4, l1.len() as int) =~= decimal_spec(i1 as nat));
            assert(l2.subrange(4, l2.len() as int) =~= decimal_spec(i2 as nat));
            lemma_decimal_injective(i1 as nat, i2 as nat);
        } else if !ids.contains(b1) && !ids.contains(b2) {
            assert(l1.subrange(8, l1.len() as int) =~= b1);
            assert(l2.subrange(8, l2.len() as int) =~= b2);
        } else {
            assert(l1[0] != l2[0]);
        }
    }
}

/// Canonicalizing the canonical form changes nothing (RDFC-1.0): when the blank
/// nodes of qs have distinct first-degree hashes, a dataset qs3 that lists the
/// quads of qs with their canonical labels, in any order (as the lines of the
/// canonical form list them), has the canonical form of qs.
pub proof fn lemma_canonical_idempotent(qs: Seq<QuadView>, iss1: IdentifierIssuer, idx1: Seq<(String, Vec<Quad>)>,
    qs3: Seq<QuadView>, iss3: IdentifierIssuer, idx3: Seq<(String, Vec<Quad>)>)
    requires
        first_degree_distinct(qs),
        index_of_dataset(idx1, qs),
        iss1.wf(),
        iss1.prefix@ == "c14n"@,
        iss1.ids() == canonical_ids(idx1),
        within(blank_keys(qs), iss1.ids()),
        qs3.to_multiset() == rename_all(qs, canon_map(iss1)).to_multiset(),
        index_of_dataset(idx3, qs3),
        iss3.wf(),
        iss3.prefix@ == "c14n"@,
        iss3.ids() == canonical_ids(idx3),
    ensures
        canonical_text(qs3, iss3) == canonical_text(qs, iss1),
{
    lemma_canon_map_injective(iss1);
    lemma_canonical_text_invariant(qs, canon_map(iss1), qs3, iss1, idx1, iss3, idx3);
}


proof fn lemma_decimal_digits(n: nat)
    ensures
        forall|k: int| 0 <= k < decimal_spec(n).len() ==> 48 <= #[trigger] decimal_spec(n)[k] as int <= 57,
    decreases n,
{
    if n >= 10 {
        lemma_decimal_digits(n / 10);
        let d = decimal_spec(n / 10);
        assert forall|k: int| 0 <= k < decimal_spec(n).len() implies 48 <= #[trigger] decimal_spec(n)[k] as int <= 57 by {
            if k < d.len() {
                assert(decimal_spec(n)[k] == d[k]);
            } else {
                assert(decimal_spec(n)[k] == (48 + n % 10) as char);
            }
        }
    } else {
        assert(decimal_spec(n)[0] == (48 + n) as char);
    }
}

/// Canonical labels are labels that the parser reads back.
proof fn lemma_canon_label_ok(iss: IdentifierIssuer, b: Seq<char>)
    requires
        iss.prefix@ == "c14n"@,
        label_ok(b),
    ensures
        label_ok(canon_label(iss, b)),
{
    reveal_strlit("c14n");
    reveal_strlit("MISSING_");
    let l = canon_label(iss, b);
    if iss.ids().contains(b) {
        let d = decimal_spec(iss.ids().index_of(b) as nat);
        lemma_decimal_digits(iss.ids().index_of(b) as nat);
        assert(l == "c14n"@ + d);
        assert forall|k: int| 0 <= k < l.len() implies !ascii_ws(#[trigger] l[k]) && l[k] != '.' && l[k] != ',' by {
            if k >= 4 {
                assert(l[k] == d[k - 4]);
            }
        }
    } else {
        assert(l == "MISSING_"@ + b);
        assert forall|k: int| 0 <= k < l.len() implies !ascii_ws(#[trigger] l[k]) && l[k] != '.' && l[k] != ',' by {
            if k >= 8 {
                assert(l[k] == b[k - 8]);
            }
        }
    }
}

proof fn lemma_relabel_ok(q: QuadView, iss: IdentifierIssuer)
    requires
        quad_ok(q),
        iss.prefix@ == "c14n"@,
    ensures
        relabel_canon(q, iss) == rename_quad(q, canon_map(iss)),
        quad_ok(relabel_canon(q, iss)),
{
    assert forall|t: TermView| t == q.subject || t == q.predicate || t == q.object || t == q.graph_name implies
        #[trigger] relabel_canon_term(t, iss) == rename_term(t, canon_map(iss))
        && (term_ok(t) ==> term_ok(relabel_canon_term(t, iss))) by {
        match t {
            TermView::Blank(b) => {
                if term_ok(t) {
                    lemma_canon_label_ok(iss, b);
                }
            },
            _ => {},
        }
    }
    assert(relabel_canon_term(q.subject, iss) == rename_term(q.subject, canon_map(iss)));
    assert(relabel_canon_term(q.predicate, iss) == rename_term(q.predicate, canon_map(iss)));
    assert(relabel_canon_term(q.object, iss) == rename_term(q.object, canon_map(iss)));
    assert(relabel_canon_term(q.graph_name, iss) == rename_term(q.graph_name, canon_map(iss)));
}

/// The canonical form reads back as the dataset's quads with their canonical
/// labels, in some order, when every quad is one that `quad_ok` admits.
pub proof fn lemma_canonical_form_reparses(qs: Seq<QuadView>, iss: IdentifierIssuer)
    requires
        forall|k: int| 0 <= k < qs.len() ==> #[trigger] quad_ok(qs[k]),
        iss.prefix@ == "c14n"@,
    ensures
        parse_nquads_spec(canonical_text(qs, iss)) matches Some(qs3)
            && qs3.to_multiset() == rename_all(qs, canon_map(iss)).to_multiset(),
{
    let rq = rename_all(qs, canon_map(iss));
    assert forall|k: int| 0 <= k < qs.len() implies #[trigger] relabel_canon(qs[k], iss) == rq[k] && quad_ok(rq[k]) by {
        lemma_relabel_ok(qs[k], iss);
    }
    let tq = |q: QuadView| quad_text(q);
    let texts = rq.map_values(tq);
    assert(Seq::new(qs.len(), |k: int| quad_text(relabel_canon(qs[k], iss))) =~= texts);
    let sorted = sort_spec(texts);
    let pq = |t: Seq<char>| parse_quad_spec(t.drop_last())->0;
    let qq = sorted.map_values(pq);
    lemma_sort_members(texts);
    assert forall|k: int| 0 <= k < texts.len() implies #[trigger] pq(texts[k]) == rq[k] by {
        lemma_relabel_ok(qs[k], iss);
        lemma_parse_quad_line(rq[k]);
    }
    assert forall|i: int| 0 <= i < qq.len() implies #[trigger] quad_ok(qq[i]) && quad_text(qq[i]) == sorted[i] by {
        assert(texts.contains(sorted[i]));
        let j = choose|j: int| 0 <= j < texts.len() && texts[j] == sorted[i];
        lemma_relabel_ok(qs[j], iss);
        lemma_parse_quad_line(rq[j]);
    }
    assert(qq.map_values(tq) =~= sorted);
    lemma_reparse(qq);
    lemma_sort_multiset(texts);
    lemma_map_perm(sorted, texts, pq);
    assert(texts.map_values(pq) =~= rq);
}

/// Canonicalizing the canonical form changes nothing: for a dataset whose
/// quads `quad_ok` admits (as the parser produces them, with no U+0008 or
/// U+000C in literal values and no xsd:string datatype written out) and whose
/// blank nodes have distinct first-degree hashes, the canonical form parses
/// back, and canonicalizing what it parses to gives the same canonical form.
pub proof fn lemma_canonicalize_twice(qs: Seq<QuadView>, iss1: IdentifierIssuer, idx1: Seq<(String, Vec<Quad>)>,
    qs3: Seq<QuadView>, iss3: IdentifierIssuer, idx3: Seq<(String, Vec<Quad>)>)
    requires
        forall|k: int| 0 <= k < qs.len() ==> #[trigger] quad_ok(qs[k]),
        first_degree_distinct(qs),
        index_of_dataset(idx1, qs),
        iss1.wf(),
        iss1.prefix@ == "c14n"@,
        iss1.ids() == canonical_ids(idx1),
        within(blank_keys(qs), iss1.ids()),
        parse_nquads_spec(canonical_text(qs, iss1)) == Some(qs3),
        index_of_dataset(idx3, qs3),
        iss3.wf(),
        iss3.prefix@ == "c14n"@,
        iss3.ids() == canonical_ids(idx3),
    ensures
        canonical_text(qs3, iss3) == canonical_text(qs, iss1),
{
    lemma_canonical_form_reparses(qs, iss1);
    lemma_canonical_idempotent(qs, iss1, idx1, qs3, iss3, idx3);
}

} // verus!
