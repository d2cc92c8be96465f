//! Renaming blank nodes, for datasets whose canonical labels need n-degree
//! hashes: every step of the canonicalization algorithm commutes with an
//! injective renaming of the blank nodes.

use vstd::prelude::*;
use crate::rdfc::{QuadView, TermView, Quad, lex_lt, group_pos, group_add, map_groups, index_keys, index_lookup,
    index_of_dataset, rename_all, rename_quad, rename_term, quad_views, mentions, term_pairs, fd_groups,
    first_degree_hash_spec, related_label, related_entry, related_groups_spec, term_text, quad_term, lemma_keys_rename,
    lemma_keys_no_dup, lemma_key_position, lemma_mentions_rename, lemma_first_degree_rename, perms_spec, perms_from,
    perm_walk, rec_walk, try_perm_spec, best_path, groups_walk, hnd_spec, sha256_hex_spec, hp_insert, hp_sort,
    issue_spec, issue_all, issue_results, unique_ids, lemma_issue_rename, nd_results, shared_lists, shared_walk,
    canonical_ids, sort_spec, IdentifierIssuer, canonical_text, relabel_canon, quad_text, blank_keys, within,
    lemma_mention_source, lemma_key_contains};
use crate::rdfc::invariance::{lemma_lex_total, lemma_lex_irrefl, lemma_sort_multiset, lemma_map_perm,
    lemma_relabel_rename_quad};

verus! {

proof fn lemma_group_pos_rename(g: Seq<(Seq<char>, Seq<Seq<char>>)>, f: spec_fn(Seq<char>) -> Seq<char>,
    h: Seq<char>, k: int)
    ensures
        group_pos(map_groups(g, f), h, k) == group_pos(g, h, k),
    decreases g.len() - k,
{
    if !(k < 0 || k >= g.len() || !lex_lt(g[k].0, h)) {
        lemma_group_pos_rename(g, f, h, k + 1);
    }
}

pub proof fn lemma_group_pos_range(g: Seq<(Seq<char>, Seq<Seq<char>>)>, h: Seq<char>, k: int)
    requires
        0 <= k <= g.len(),
    ensures
        k <= group_pos(g, h, k) <= g.len(),
    decreases g.len() - k,
{
    if !(k < 0 || k >= g.len() || !lex_lt(g[k].0, h)) {
        lemma_group_pos_range(g, h, k + 1);
    }
}

proof fn lemma_group_add_rename(g: Seq<(Seq<char>, Seq<Seq<char>>)>, f: spec_fn(Seq<char>) -> Seq<char>,
    h: Seq<char>, x: Seq<char>)
    ensures
        group_add(map_groups(g, f), h, f(x)) == map_groups(group_add(g, h, x), f),
{
    lemma_group_pos_rename(g, f, h, 0);
    lemma_group_pos_range(g, h, 0);
    let k = group_pos(g, h, 0);
    let mg = map_groups(g, f);
    let l = group_add(mg, h, f(x));
    let r = map_groups(group_add(g, h, x), f);
    if k < g.len() && g[k].0 == h {
        assert(g[k].1.push(x).map_values(f) =~= g[k].1.map_values(f).push(f(x)));
        assert forall|a: int| 0 <= a < l.len() implies #[trigger] l[a] == r[a] by {
            if a != k {
                assert(l[a] == mg[a]);
            }
        }
        assert(l =~= r);
    } else {
        assert(seq![x].map_values(f) =~= seq![f(x)]);
        assert(l.len() == r.len());
        assert forall|a: int| 0 <= a < l.len() implies #[trigger] l[a] == r[a] by {
            if a < k {
                assert(l[a] == mg[a]);
            } else if a > k {
                assert(l[a] == mg[a - 1]);
            }
        }
        assert(l =~= r);
    }
}

/// The index of the renamed dataset lists the renamed labels, each with the
/// renamed quads of the label it renames.
proof fn lemma_index_rename(qs: Seq<QuadView>, f: spec_fn(Seq<char>) -> Seq<char>,
    idx1: Seq<(String, Vec<Quad>)>, idx2: Seq<(String, Vec<Quad>)>)
    requires
        vstd::relations::injective(f),
        index_of_dataset(idx1, qs),
        index_of_dataset(idx2, rename_all(qs, f)),
    ensures
        index_keys(idx2) == index_keys(idx1).map_values(f),
        idx2.len() == idx1.len(),
        index_keys(idx1).no_duplicates(),
        index_keys(idx2).no_duplicates(),
        forall|k: int| 0 <= k < idx1.len() ==> #[trigger] index_lookup(idx2, f(index_keys(idx1)[k]))
            == index_lookup(idx1, index_keys(idx1)[k]).map_values(|q: QuadView| rename_quad(q, f)),
{
    let rq = rename_all(qs, f);
    lemma_keys_rename(qs, f, 4 * qs.len() as int);
    lemma_keys_no_dup(term_pairs(qs), 4 * qs.len() as int);
    lemma_keys_no_dup(term_pairs(rq), 4 * rq.len() as int);
    assert(index_keys(idx2).len() == idx2.len());
    assert forall|k: int| 0 <= k < idx1.len() implies #[trigger] index_lookup(idx2, f(index_keys(idx1)[k]))
        == index_lookup(idx1, index_keys(idx1)[k]).map_values(|q: QuadView| rename_quad(q, f)) by {
        let b = index_keys(idx1)[k];
        lemma_key_position(idx1, b, k);
        assert(index_keys(idx2)[k] == f(b));
        lemma_key_position(idx2, f(b), k);
        assert(quad_views(idx1[k].1@) == mentions(qs, idx1[k].0@));
        assert(quad_views(idx2[k].1@) == mentions(rq, idx2[k].0@));
        lemma_mentions_rename(qs, f, 4 * qs.len() as int, b);
    }
}

/// The first-degree groups of the renamed dataset are those of the dataset,
/// their members renamed.
proof fn lemma_fd_groups_rename(qs: Seq<QuadView>, f: spec_fn(Seq<char>) -> Seq<char>,
    idx1: Seq<(String, Vec<Quad>)>, idx2: Seq<(String, Vec<Quad>)>, m: int)
    requires
        vstd::relations::injective(f),
        index_of_dataset(idx1, qs),
        index_of_dataset(idx2, rename_all(qs, f)),
        0 <= m <= idx1.len(),
    ensures
        fd_groups(idx2, m) == map_groups(fd_groups(idx1, m), f),
    decreases m,
{
    lemma_index_rename(qs, f, idx1, idx2);
    if m == 0 {
        assert(map_groups(fd_groups(idx1, 0), f) =~= fd_groups(idx2, 0));
    } else {
        lemma_fd_groups_rename(qs, f, idx1, idx2, m - 1);
        let b = index_keys(idx1)[m - 1];
        assert(index_keys(idx2)[m - 1] == f(b));
        assert(index_lookup(idx2, f(b)) == index_lookup(idx1, b).map_values(|q: QuadView| rename_quad(q, f)));
        lemma_first_degree_rename(index_lookup(idx1, b), b, f);
        lemma_group_add_rename(fd_groups(idx1, m - 1), f,
            first_degree_hash_spec(index_lookup(idx1, b), b), b);
    }
}


/// The index idx2 of a renamed dataset: its keys are the renamed keys of idx1,
/// and the quads listed for f(b) are the renamed quads listed for b.
pub open spec fn renamed_index(idx1: Seq<(String, Vec<Quad>)>, idx2: Seq<(String, Vec<Quad>)>,
    f: spec_fn(Seq<char>) -> Seq<char>) -> bool {
    &&& idx2.len() == idx1.len()
    &&& index_keys(idx2) == index_keys(idx1).map_values(f)
    &&& index_keys(idx1).no_duplicates()
    &&& forall|b: Seq<char>| #[trigger] index_lookup(idx2, f(b))
        == index_lookup(idx1, b).map_values(|q: QuadView| rename_quad(q, f))
}

proof fn lemma_map_contains(s: Seq<Seq<char>>, f: spec_fn(Seq<char>) -> Seq<char>, r: Seq<char>)
    requires
        vstd::relations::injective(f),
    ensures
        s.map_values(f).contains(f(r)) <==> s.contains(r),
        s.contains(r) && s.no_duplicates() ==> s.map_values(f).index_of(f(r)) == s.index_of(r),
{
    let m = s.map_values(f);
    if m.contains(f(r)) {
        let j = choose|j: int| 0 <= j < m.len() && m[j] == f(r);
        assert(f(s[j]) == f(r));
    }
    if s.contains(r) {
        let j = choose|j: int| 0 <= j < s.len() && s[j] == r;
        assert(m[j] == f(r));
        assert(m.contains(f(r)));
        if s.no_duplicates() {
            let a = m.index_of(f(r));
            let b = s.index_of(r);
            assert(m[a] == f(r));
            assert(f(s[a]) == f(r));
            assert(s[a] == r && s[b] == r);
        }
    }
}

/// The index of a renamed dataset is the renamed index.
pub proof fn lemma_renamed_index(qs: Seq<QuadView>, f: spec_fn(Seq<char>) -> Seq<char>,
    idx1: Seq<(String, Vec<Quad>)>, idx2: Seq<(String, Vec<Quad>)>)
    requires
        vstd::relations::injective(f),
        index_of_dataset(idx1, qs),
        index_of_dataset(idx2, rename_all(qs, f)),
    ensures
        renamed_index(idx1, idx2, f),
{
    lemma_index_rename(qs, f, idx1, idx2);
    let k1 = index_keys(idx1);
    assert forall|b: Seq<char>| #[trigger] index_lookup(idx2, f(b))
        == index_lookup(idx1, b).map_values(|q: QuadView| rename_quad(q, f)) by {
        lemma_map_contains(k1, f, b);
        if k1.contains(b) {
            let k = k1.index_of(b);
            assert(k1[k] == b);
        } else {
            assert(index_lookup(idx1, b).map_values(|q: QuadView| rename_quad(q, f)) =~= Seq::<QuadView>::empty());
        }
    }
}


/// No quad listed in the index has a blank node as predicate.
pub open spec fn no_blank_predicates(idx: Seq<(String, Vec<Quad>)>) -> bool {
    forall|b: Seq<char>, j: int| 0 <= j < index_lookup(idx, b).len() ==> !((#[trigger] index_lookup(idx, b)[j]).predicate is Blank)
}

proof fn lemma_label_rename(cp: Seq<char>, cids: Seq<Seq<char>>, tp: Seq<char>, tids: Seq<Seq<char>>,
    idx1: Seq<(String, Vec<Quad>)>, idx2: Seq<(String, Vec<Quad>)>, f: spec_fn(Seq<char>) -> Seq<char>, r: Seq<char>)
    requires
        vstd::relations::injective(f),
        renamed_index(idx1, idx2, f),
        cids.no_duplicates(),
        tids.no_duplicates(),
    ensures
        related_label(cp, cids.map_values(f), tp, tids.map_values(f), idx2, f(r))
            == related_label(cp, cids, tp, tids, idx1, r),
{
    lemma_map_contains(cids, f, r);
    lemma_map_contains(tids, f, r);
    assert(index_lookup(idx2, f(r)) == index_lookup(idx1, r).map_values(|q: QuadView| rename_quad(q, f)));
    lemma_first_degree_rename(index_lookup(idx1, r), r, f);
}

proof fn lemma_entry_rename(id: Seq<char>, q: QuadView, t: int, cp: Seq<char>, cids: Seq<Seq<char>>, tp: Seq<char>,
    tids: Seq<Seq<char>>, idx1: Seq<(String, Vec<Quad>)>, idx2: Seq<(String, Vec<Quad>)>, f: spec_fn(Seq<char>) -> Seq<char>)
    requires
        vstd::relations::injective(f),
        renamed_index(idx1, idx2, f),
        cids.no_duplicates(),
        tids.no_duplicates(),
        !(q.predicate is Blank),
    ensures
        related_entry(f(id), rename_quad(q, f), t, cp, cids.map_values(f), tp, tids.map_values(f), idx2)
            == match related_entry(id, q, t, cp, cids, tp, tids, idx1) {
                Some((h, r)) => Some((h, f(r))),
                None => None,
            },
{
    let term = if t == 0 { q.subject } else if t == 1 { q.object } else { q.graph_name };
    assert(term_text(rename_term(q.predicate, f)) == term_text(q.predicate));
    match term {
        TermView::Blank(r) => {
            lemma_label_rename(cp, cids, tp, tids, idx1, idx2, f, r);
            if f(r) == f(id) {
                assert(r == id);
            }
        },
        _ => {},
    }
}

proof fn lemma_groups_rename(id: Seq<char>, ms: Seq<QuadView>, n: int, cp: Seq<char>, cids: Seq<Seq<char>>, tp: Seq<char>,
    tids: Seq<Seq<char>>, idx1: Seq<(String, Vec<Quad>)>, idx2: Seq<(String, Vec<Quad>)>, f: spec_fn(Seq<char>) -> Seq<char>)
    requires
        vstd::relations::injective(f),
        renamed_index(idx1, idx2, f),
        cids.no_duplicates(),
        tids.no_duplicates(),
        0 <= n <= 3 * ms.len(),
        forall|j: int| 0 <= j < ms.len() ==> !((#[trigger] ms[j]).predicate is Blank),
    ensures
        related_groups_spec(f(id), ms.map_values(|q: QuadView| rename_quad(q, f)), n, cp, cids.map_values(f), tp,
            tids.map_values(f), idx2)
            == map_groups(related_groups_spec(id, ms, n, cp, cids, tp, tids, idx1), f),
    decreases n,
{
    let rms = ms.map_values(|q: QuadView| rename_quad(q, f));
    if n == 0 {
        assert(map_groups(Seq::<(Seq<char>, Seq<Seq<char>>)>::empty(), f) =~= Seq::empty());
    } else {
        lemma_groups_rename(id, ms, n - 1, cp, cids, tp, tids, idx1, idx2, f);
        let j = (n - 1) / 3;
        assert(0 <= j < ms.len());
        assert(rms[j] == rename_quad(ms[j], f));
        assert(!(ms[j].predicate is Blank));
        lemma_entry_rename(id, ms[j], (n - 1) % 3, cp, cids, tp, tids, idx1, idx2, f);
        let prev = related_groups_spec(id, ms, n - 1, cp, cids, tp, tids, idx1);
        match related_entry(id, ms[j], (n - 1) % 3, cp, cids, tp, tids, idx1) {
            Some((h, r)) => {
                lemma_group_add_rename(prev, f, h, r);
            },
            None => {},
        }
    }
}

/// The orderings of renamed items are the renamed orderings.
proof fn lemma_perms_rename(items: Seq<Seq<char>>, f: spec_fn(Seq<char>) -> Seq<char>)
    ensures
        perms_spec(items.map_values(f)) == perms_spec(items).map_values(|p: Seq<Seq<char>>| p.map_values(f)),
    decreases items.len(), items.len() + 1,
{
    let m = items.map_values(f);
    if items.len() == 0 {
        assert(Seq::<Seq<char>>::empty().map_values(f) =~= Seq::<Seq<char>>::empty());
        assert(perms_spec(items).map_values(|p: Seq<Seq<char>>| p.map_values(f)) =~= seq![Seq::<Seq<char>>::empty()]);
        assert(m =~= Seq::<Seq<char>>::empty());
    } else if items.len() == 1 {
        assert(perms_spec(items).map_values(|p: Seq<Seq<char>>| p.map_values(f)) =~= seq![m]);
    } else {
        lemma_perms_from_rename(items, f, 0);
    }
}

proof fn lemma_perms_from_rename(items: Seq<Seq<char>>, f: spec_fn(Seq<char>) -> Seq<char>, i: int)
    ensures
        perms_from(items.map_values(f), i) == perms_from(items, i).map_values(|p: Seq<Seq<char>>| p.map_values(f)),
    decreases items.len(), items.len() - i,
{
    let m = items.map_values(f);
    let mp = |p: Seq<Seq<char>>| p.map_values(f);
    if i < 0 || i >= items.len() {
        assert(perms_from(items, i).map_values(mp) =~= Seq::<Seq<Seq<char>>>::empty());
    } else {
        assert(m.remove(i) =~= items.remove(i).map_values(f));
        lemma_perms_rename(items.remove(i), f);
        lemma_perms_from_rename(items, f, i + 1);
        let rest = perms_spec(items.remove(i));
        let a = Seq::new(rest.len(), |k: int| seq![items[i]] + rest[k]);
        let b = perms_from(items, i + 1);
        let rest2 = perms_spec(m.remove(i));
        assert(rest2 == rest.map_values(mp));
        let a2 = Seq::new(rest2.len(), |k: int| seq![m[i]] + rest2[k]);
        assert forall|k: int| 0 <= k < a.len() implies #[trigger] a2[k] == mp(a[k]) by {
            assert((seq![items[i]] + rest[k]).map_values(f) =~= seq![m[i]] + rest[k].map_values(f));
        }
        assert(a2 =~= a.map_values(mp));
        assert((a + b).map_values(mp) =~= a.map_values(mp) + b.map_values(mp));
    }
}

/// Phase one of trying an ordering commutes with renaming.
proof fn lemma_perm_walk_rename(perm: Seq<Seq<char>>, i: int, chosen: Seq<char>, cp: Seq<char>, cids: Seq<Seq<char>>,
    tp: Seq<char>, tids: Seq<Seq<char>>, path: Seq<char>, rl: Seq<Seq<char>>, f: spec_fn(Seq<char>) -> Seq<char>)
    requires
        vstd::relations::injective(f),
        cids.no_duplicates(),
        tids.no_duplicates(),
    ensures
        ({
            let w = perm_walk(perm, i, chosen, cp, cids, tp, tids, path, rl);
            &&& perm_walk(perm.map_values(f), i, chosen, cp, cids.map_values(f), tp, tids.map_values(f), path,
                rl.map_values(f)) == (w.0, w.1.map_values(f), w.2.map_values(f))
            &&& w.1.no_duplicates()
        }),
    decreases perm.len() - i,
{
    if !(i < 0 || i >= perm.len()) {
        let r = perm[i];
        assert(perm.map_values(f)[i] == f(r));
        lemma_map_contains(cids, f, r);
        lemma_map_contains(tids, f, r);
        let fresh = !(cids.contains(r) || tids.contains(r));
        let tids2 = if fresh { tids.push(r) } else { tids };
        let rl2 = if fresh { rl.push(r) } else { rl };
        assert(tids.push(r).map_values(f) =~= tids.map_values(f).push(f(r)));
        assert(rl.push(r).map_values(f) =~= rl.map_values(f).push(f(r)));
        assert(tids2.no_duplicates()) by {
            if fresh {
                assert forall|a: int, c: int| 0 <= a < c < tids2.len() implies tids2[a] != tids2[c] by {
                    if c == tids.len() {
                        assert(tids.contains(tids[a]));
                    }
                }
            }
        }
        let path2 = if cids.contains(r) {
            path + seq!['_', ':'] + cp + crate::rdfc::decimal_spec(cids.index_of(r) as nat)
        } else if tids.contains(r) {
            path + seq!['_', ':'] + tp + crate::rdfc::decimal_spec(tids.index_of(r) as nat)
        } else {
            path + seq!['_', ':'] + tp + crate::rdfc::decimal_spec(tids.len())
        };
        if !(chosen.len() > 0 && lex_lt(chosen, path2)) {
            lemma_perm_walk_rename(perm, i + 1, chosen, cp, cids, tp, tids2, path2, rl2, f);
        }
    }
}


/// The renamed identifiers of an optional issuer.
pub open spec fn map_opt(ci: Option<Seq<Seq<char>>>, f: spec_fn(Seq<char>) -> Seq<char>) -> Option<Seq<Seq<char>>> {
    match ci {
        Some(c) => Some(c.map_values(f)),
        None => None,
    }
}

/// A path with renamed identifiers.
pub open spec fn map_res(r: Option<(Seq<char>, Seq<Seq<char>>)>, f: spec_fn(Seq<char>) -> Seq<char>)
    -> Option<(Seq<char>, Seq<Seq<char>>)> {
    match r {
        Some((p, t)) => Some((p, t.map_values(f))),
        None => None,
    }
}

/// Hash N-Degree Quads commutes with renaming: the hash is the same and the
/// temporary identifiers are renamed.
pub proof fn lemma_hnd_rename(id: Seq<char>, cp: Seq<char>, cids: Seq<Seq<char>>, tp: Seq<char>, tids: Seq<Seq<char>>,
    idx1: Seq<(String, Vec<Quad>)>, idx2: Seq<(String, Vec<Quad>)>, f: spec_fn(Seq<char>) -> Seq<char>, fuel: int)
    requires
        vstd::relations::injective(f),
        renamed_index(idx1, idx2, f),
        no_blank_predicates(idx1),
        cids.no_duplicates(),
        tids.no_duplicates(),
    ensures
        ({
            let r = hnd_spec(id, cp, cids, tp, tids, idx1, fuel);
            &&& hnd_spec(f(id), cp, cids.map_values(f), tp, tids.map_values(f), idx2, fuel) == (r.0, r.1.map_values(f))
            &&& r.1.no_duplicates()
        }),
    decreases fuel, 4int, 0int,
{
    lemma_map_contains(index_keys(idx1), f, id);
    assert(index_keys(idx2) == index_keys(idx1).map_values(f));
    if index_keys(idx1).contains(id) {
        let ms = index_lookup(idx1, id);
        assert(index_lookup(idx2, f(id)) == ms.map_values(|q: QuadView| rename_quad(q, f)));
        assert forall|j: int| 0 <= j < ms.len() implies !((#[trigger] ms[j]).predicate is Blank) by {
            assert(!((index_lookup(idx1, id)[j]).predicate is Blank));
        }
        lemma_groups_rename(id, ms, 3 * ms.len() as int, cp, cids, tp, tids, idx1, idx2, f);
        let groups = related_groups_spec(id, ms, 3 * ms.len() as int, cp, cids, tp, tids, idx1);
        lemma_groups_walk_rename(groups, 0, cp, cids, tp, tids, idx1, idx2, f, fuel, Seq::empty());
    }
}

proof fn lemma_groups_walk_rename(groups: Seq<(Seq<char>, Seq<Seq<char>>)>, g: int, cp: Seq<char>, cids: Seq<Seq<char>>,
    tp: Seq<char>, tids: Seq<Seq<char>>, idx1: Seq<(String, Vec<Quad>)>, idx2: Seq<(String, Vec<Quad>)>,
    f: spec_fn(Seq<char>) -> Seq<char>, fuel: int, data: Seq<char>)
    requires
        vstd::relations::injective(f),
        renamed_index(idx1, idx2, f),
        no_blank_predicates(idx1),
        cids.no_duplicates(),
        tids.no_duplicates(),
    ensures
        ({
            let w = groups_walk(groups, g, cp, cids, tp, tids, idx1, fuel, data);
            &&& groups_walk(map_groups(groups, f), g, cp, cids.map_values(f), tp, tids.map_values(f), idx2, fuel, data)
                == (w.0, w.1.map_values(f))
            &&& w.1.no_duplicates()
        }),
    decreases fuel, 3int, groups.len() - g,
{
    if !(g < 0 || g >= groups.len()) {
        let mg = map_groups(groups, f);
        assert(mg[g].1 == groups[g].1.map_values(f));
        assert(mg[g].0 == groups[g].0);
        lemma_perms_rename(groups[g].1, f);
        let perms = perms_spec(groups[g].1);
        lemma_best_path_rename(perms, 0, cp, cids, tp, tids, idx1, idx2, f, fuel, Seq::empty(), None);
        let b = best_path(perms, 0, cp, cids, tp, tids, idx1, fuel, Seq::empty(), None);
        assert(map_opt(None, f) == None::<Seq<Seq<char>>>);
        lemma_groups_walk_rename(groups, g + 1, cp, cids, tp, b.1, idx1, idx2, f, fuel, data + groups[g].0 + b.0);
    }
}

proof fn lemma_best_path_rename(perms: Seq<Seq<Seq<char>>>, p: int, cp: Seq<char>, cids: Seq<Seq<char>>, tp: Seq<char>,
    tids: Seq<Seq<char>>, idx1: Seq<(String, Vec<Quad>)>, idx2: Seq<(String, Vec<Quad>)>, f: spec_fn(Seq<char>) -> Seq<char>,
    fuel: int, chosen: Seq<char>, ci: Option<Seq<Seq<char>>>)
    requires
        vstd::relations::injective(f),
        renamed_index(idx1, idx2, f),
        no_blank_predicates(idx1),
        cids.no_duplicates(),
        tids.no_duplicates(),
        ci matches Some(c) ==> c.no_duplicates(),
    ensures
        ({
            let b = best_path(perms, p, cp, cids, tp, tids, idx1, fuel, chosen, ci);
            &&& best_path(perms.map_values(|q: Seq<Seq<char>>| q.map_values(f)), p, cp, cids.map_values(f), tp,
                tids.map_values(f), idx2, fuel, chosen, map_opt(ci, f)) == (b.0, b.1.map_values(f))
            &&& b.1.no_duplicates()
        }),
    decreases fuel, 2int, perms.len() - p,
{
    let mp = perms.map_values(|q: Seq<Seq<char>>| q.map_values(f));
    if !(p < 0 || p >= perms.len()) {
        assert(mp[p] == perms[p].map_values(f));
        lemma_try_rename(perms[p], chosen, cp, cids, tp, tids, idx1, idx2, f, fuel);
        match try_perm_spec(perms[p], chosen, cp, cids, tp, tids, idx1, fuel) {
            None => {
                lemma_best_path_rename(perms, p + 1, cp, cids, tp, tids, idx1, idx2, f, fuel, chosen, ci);
            },
            Some((path, t)) => {
                if chosen.len() == 0 || lex_lt(path, chosen) {
                    assert(map_opt(Some(t), f) == Some(t.map_values(f)));
                    lemma_best_path_rename(perms, p + 1, cp, cids, tp, tids, idx1, idx2, f, fuel, path, Some(t));
                } else {
                    lemma_best_path_rename(perms, p + 1, cp, cids, tp, tids, idx1, idx2, f, fuel, chosen, ci);
                }
            },
        }
    }
}

proof fn lemma_try_rename(perm: Seq<Seq<char>>, chosen: Seq<char>, cp: Seq<char>, cids: Seq<Seq<char>>, tp: Seq<char>,
    tids: Seq<Seq<char>>, idx1: Seq<(String, Vec<Quad>)>, idx2: Seq<(String, Vec<Quad>)>, f: spec_fn(Seq<char>) -> Seq<char>,
    fuel: int)
    requires
        vstd::relations::injective(f),
        renamed_index(idx1, idx2, f),
        no_blank_predicates(idx1),
        cids.no_duplicates(),
        tids.no_duplicates(),
    ensures
        ({
            let r = try_perm_spec(perm, chosen, cp, cids, tp, tids, idx1, fuel);
            &&& try_perm_spec(perm.map_values(f), chosen, cp, cids.map_values(f), tp, tids.map_values(f), idx2, fuel)
                == map_res(r, f)
            &&& r matches Some((_, t)) ==> t.no_duplicates()
        }),
    decreases fuel, 1int, 0int,
{
    let e = Seq::<Seq<char>>::empty();
    assert(e.map_values(f) =~= e);
    lemma_perm_walk_rename(perm, 0, chosen, cp, cids, tp, tids, Seq::empty(), e, f);
    let w = perm_walk(perm, 0, chosen, cp, cids, tp, tids, Seq::empty(), e);
    lemma_rec_rename(w.2, 0, chosen, cp, cids, tp, w.1, idx1, idx2, f, fuel, w.0);
}

proof fn lemma_rec_rename(rl: Seq<Seq<char>>, k: int, chosen: Seq<char>, cp: Seq<char>, cids: Seq<Seq<char>>,
    tp: Seq<char>, tids: Seq<Seq<char>>, idx1: Seq<(String, Vec<Quad>)>, idx2: Seq<(String, Vec<Quad>)>,
    f: spec_fn(Seq<char>) -> Seq<char>, fuel: int, path: Seq<char>)
    requires
        vstd::relations::injective(f),
        renamed_index(idx1, idx2, f),
        no_blank_predicates(idx1),
        cids.no_duplicates(),
        tids.no_duplicates(),
    ensures
        ({
            let r = rec_walk(rl, k, chosen, cp, cids, tp, tids, idx1, fuel, path);
            &&& rec_walk(rl.map_values(f), k, chosen, cp, cids.map_values(f), tp, tids.map_values(f), idx2, fuel, path)
                == map_res(r, f)
            &&& r matches Some((_, t)) ==> t.no_duplicates()
        }),
    decreases fuel, 0int, rl.len() - k,
{
    if !(k < 0 || k >= rl.len()) {
        let m = idx1.len() - tids.len();
        if 0 <= m < fuel {
            assert(rl.map_values(f)[k] == f(rl[k]));
            lemma_hnd_rename(rl[k], cp, cids, tp, tids, idx1, idx2, f, m);
            let (h, t2) = hnd_spec(rl[k], cp, cids, tp, tids, idx1, m);
            let path2 = path + seq!['<'] + h + seq!['>'];
            if !(chosen.len() > 0 && lex_lt(chosen, path2)) {
                lemma_rec_rename(rl, k + 1, chosen, cp, cids, tp, t2, idx1, idx2, f, fuel, path2);
            }
        }
    }
}


// ---------------------------------------------------------------------------
// Sorting n-degree results
// ---------------------------------------------------------------------------

/// Results in hash order.
pub open spec fn hp_sorted(s: Seq<(Seq<char>, Seq<Seq<char>>)>) -> bool {
    forall|i: int, j: int| 0 <= i < j < s.len() ==> !lex_lt(#[trigger] s[j].0, #[trigger] s[i].0)
}

/// Among the results, equal hashes come only from equal results.
pub open spec fn hashes_determine(s: Seq<(Seq<char>, Seq<Seq<char>>)>) -> bool {
    forall|i: int, j: int| 0 <= i < s.len() && 0 <= j < s.len() && (#[trigger] s[i]).0 == (#[trigger] s[j]).0 ==> s[i] == s[j]
}

/// A result with its identifiers renamed.
pub open spec fn map_pair(x: (Seq<char>, Seq<Seq<char>>), f: spec_fn(Seq<char>) -> Seq<char>) -> (Seq<char>, Seq<Seq<char>>) {
    (x.0, x.1.map_values(f))
}

proof fn lemma_hp_insert_facts(s: Seq<(Seq<char>, Seq<Seq<char>>)>, x: (Seq<char>, Seq<Seq<char>>))
    ensures
        hp_insert(s, x).to_multiset() =~= s.to_multiset().insert(x),
        hp_sorted(s) ==> hp_sorted(hp_insert(s, x)),
    decreases s.len(),
{
    broadcast use vstd::multiset::group_multiset_axioms;
    broadcast use vstd::seq_lib::group_to_multiset_ensures;
    let r = hp_insert(s, x);
    if s.len() == 0 || !lex_lt(x.0, s.last().0) {
        if hp_sorted(s) {
            assert forall|i: int, j: int| 0 <= i < j < r.len() implies !lex_lt(#[trigger] r[j].0, #[trigger] r[i].0) by {
                if j == s.len() {
                    assert(r[i] == s[i]);
                    if i < s.len() - 1 {
                        assert(!lex_lt(s[s.len() - 1].0, s[i].0));
                    }
                    crate::rdfc::lemma_lex_order(x.0, s.last().0, s[i].0);
                } else {
                    assert(r[i] == s[i] && r[j] == s[j]);
                }
            }
        }
    } else {
        let p = s.drop_last();
        lemma_hp_insert_facts(p, x);
        assert(p.push(s.last()) =~= s);
        let q = hp_insert(p, x);
        if hp_sorted(s) {
            assert(hp_sorted(p)) by {
                assert forall|i: int, j: int| 0 <= i < j < p.len() implies !lex_lt(#[trigger] p[j].0, #[trigger] p[i].0) by {
                    assert(p[i] == s[i] && p[j] == s[j]);
                }
            }
            assert forall|i: int, j: int| 0 <= i < j < r.len() implies !lex_lt(#[trigger] r[j].0, #[trigger] r[i].0) by {
                if j == q.len() {
                    let y = q[i];
                    assert(r[i] == y);
                    assert(q.to_multiset().count(y) > 0);
                    if y == x {
                        crate::rdfc::lemma_lex_order(x.0, s.last().0, s.last().0);
                    } else {
                        assert(p.to_multiset().count(y) > 0);
                        assert(p.contains(y));
                        let k = choose|k: int| 0 <= k < p.len() && p[k] == y;
                        assert(s[k] == y);
                        assert(!lex_lt(s[s.len() - 1].0, s[k].0));
                    }
                } else {
                    assert(r[i] == q[i] && r[j] == q[j]);
                }
            }
        }
    }
}

proof fn lemma_hp_sort_facts(v: Seq<(Seq<char>, Seq<Seq<char>>)>)
    ensures
        hp_sort(v).to_multiset() =~= v.to_multiset(),
        hp_sorted(hp_sort(v)),
    decreases v.len(),
{
    broadcast use vstd::multiset::group_multiset_axioms;
    broadcast use vstd::seq_lib::group_to_multiset_ensures;
    if v.len() > 0 {
        lemma_hp_sort_facts(v.drop_last());
        lemma_hp_insert_facts(hp_sort(v.drop_last()), v.last());
        assert(v.drop_last().push(v.last()) =~= v);
    }
}

proof fn lemma_hp_insert_map(s: Seq<(Seq<char>, Seq<Seq<char>>)>, x: (Seq<char>, Seq<Seq<char>>), f: spec_fn(Seq<char>) -> Seq<char>)
    ensures
        hp_insert(s.map_values(|y: (Seq<char>, Seq<Seq<char>>)| map_pair(y, f)), map_pair(x, f))
            == hp_insert(s, x).map_values(|y: (Seq<char>, Seq<Seq<char>>)| map_pair(y, f)),
    decreases s.len(),
{
    let mp = |y: (Seq<char>, Seq<Seq<char>>)| map_pair(y, f);
    let ms = s.map_values(mp);
    if s.len() == 0 || !lex_lt(x.0, s.last().0) {
        assert(s.push(x).map_values(mp) =~= ms.push(mp(x)));
    } else {
        lemma_hp_insert_map(s.drop_last(), x, f);
        assert(ms.drop_last() =~= s.drop_last().map_values(mp));
        assert(ms.last() == mp(s.last()));
        assert(hp_insert(s.drop_last(), x).push(s.last()).map_values(mp)
            =~= hp_insert(s.drop_last(), x).map_values(mp).push(mp(s.last())));
    }
}

proof fn lemma_hp_sort_map(v: Seq<(Seq<char>, Seq<Seq<char>>)>, f: spec_fn(Seq<char>) -> Seq<char>)
    ensures
        hp_sort(v.map_values(|y: (Seq<char>, Seq<Seq<char>>)| map_pair(y, f)))
            == hp_sort(v).map_values(|y: (Seq<char>, Seq<Seq<char>>)| map_pair(y, f)),
    decreases v.len(),
{
    let mp = |y: (Seq<char>, Seq<Seq<char>>)| map_pair(y, f);
    if v.len() == 0 {
        assert(hp_sort(v).map_values(mp) =~= v.map_values(mp));
    } else {
        lemma_hp_sort_map(v.drop_last(), f);
        assert(v.map_values(mp).drop_last() =~= v.drop_last().map_values(mp));
        lemma_hp_insert_map(hp_sort(v.drop_last()), v.last(), f);
    }
}

/// Two sequences of results in hash order with the same elements, in which
/// equal hashes come only from equal results, are equal.
proof fn lemma_hp_sorted_unique(s: Seq<(Seq<char>, Seq<Seq<char>>)>, t: Seq<(Seq<char>, Seq<Seq<char>>)>)
    requires
        hp_sorted(s),
        hp_sorted(t),
        s.to_multiset() == t.to_multiset(),
        hashes_determine(s),
    ensures
        s == t,
    decreases s.len(),
{
    broadcast use vstd::multiset::group_multiset_axioms;
    broadcast use vstd::seq_lib::group_to_multiset_ensures;
    vstd::seq_lib::to_multiset_len(s);
    vstd::seq_lib::to_multiset_len(t);
    if s.len() == 0 {
        assert(s =~= t);
    } else {
        let n = s.len() - 1;
        let x = s.last();
        let y = t.last();
        assert(s.to_multiset().count(x) > 0);
        assert(t.contains(x));
        let j = choose|j: int| 0 <= j < t.len() && t[j] == x;
        assert(t.to_multiset().count(y) > 0);
        assert(s.contains(y));
        let i = choose|i: int| 0 <= i < s.len() && s[i] == y;
        if j < n {
            assert(!lex_lt(t[n].0, t[j].0));
        }
        if i < n {
            assert(!lex_lt(s[n].0, s[i].0));
        }
        lemma_lex_total(x.0, y.0);
        assert(s[n].0 == s[i].0);
        assert(x == y);
        let s2 = s.drop_last();
        let t2 = t.drop_last();
        assert(s2 =~= s.remove(n));
        assert(t2 =~= t.remove(n));
        assert(hp_sorted(s2)) by {
            assert forall|a: int, b: int| 0 <= a < b < s2.len() implies !lex_lt(#[trigger] s2[b].0, #[trigger] s2[a].0) by {
                assert(s2[a] == s[a] && s2[b] == s[b]);
            }
        }
        assert(hp_sorted(t2)) by {
            assert forall|a: int, b: int| 0 <= a < b < t2.len() implies !lex_lt(#[trigger] t2[b].0, #[trigger] t2[a].0) by {
                assert(t2[a] == t[a] && t2[b] == t[b]);
            }
        }
        assert(hashes_determine(s2)) by {
            assert forall|a: int, b: int| 0 <= a < s2.len() && 0 <= b < s2.len() && (#[trigger] s2[a]).0 == (#[trigger] s2[b]).0
                implies s2[a] == s2[b] by {
                assert(s2[a] == s[a] && s2[b] == s[b]);
            }
        }
        lemma_hp_sorted_unique(s2, t2);
        assert(s =~= s2.push(x));
        assert(t =~= t2.push(y));
    }
}

// ---------------------------------------------------------------------------
// Issuing identifiers
// ---------------------------------------------------------------------------

proof fn lemma_issue_facts(ids: Seq<Seq<char>>, x: Seq<char>)
    requires
        ids.no_duplicates(),
    ensures
        issue_spec(ids, x).no_duplicates(),
{
    if !ids.contains(x) {
        let r = ids.push(x);
        assert forall|a: int, c: int| 0 <= a < c < r.len() implies r[a] != r[c] by {
            if c == ids.len() {
                assert(ids.contains(ids[a]));
            }
        }
    }
}

proof fn lemma_issue_all_rename(ids: Seq<Seq<char>>, s: Seq<Seq<char>>, o: int, f: spec_fn(Seq<char>) -> Seq<char>)
    requires
        vstd::relations::injective(f),
        ids.no_duplicates(),
        0 <= o <= s.len(),
    ensures
        issue_all(ids.map_values(f), s.map_values(f), o) == issue_all(ids, s, o).map_values(f),
        issue_all(ids, s, o).no_duplicates(),
    decreases o,
{
    if o > 0 {
        lemma_issue_all_rename(ids, s, o - 1, f);
        lemma_issue_rename(issue_all(ids, s, o - 1), s[o - 1], f);
        lemma_issue_facts(issue_all(ids, s, o - 1), s[o - 1]);
    }
}

proof fn lemma_issue_results_rename(ids: Seq<Seq<char>>, rs: Seq<(Seq<char>, Seq<Seq<char>>)>, e: int,
    f: spec_fn(Seq<char>) -> Seq<char>)
    requires
        vstd::relations::injective(f),
        ids.no_duplicates(),
        0 <= e <= rs.len(),
    ensures
        issue_results(ids.map_values(f), rs.map_values(|y: (Seq<char>, Seq<Seq<char>>)| map_pair(y, f)), e)
            == issue_results(ids, rs, e).map_values(f),
        issue_results(ids, rs, e).no_duplicates(),
    decreases e,
{
    if e > 0 {
        lemma_issue_results_rename(ids, rs, e - 1, f);
        let prev = issue_results(ids, rs, e - 1);
        let t = rs[e - 1].1;
        lemma_issue_all_rename(prev, t, t.len() as int, f);
        assert(rs.map_values(|y: (Seq<char>, Seq<Seq<char>>)| map_pair(y, f))[e - 1].1 == t.map_values(f));
    }
}

/// Step 4 commutes with renaming.
proof fn lemma_unique_ids_rename_any(g: Seq<(Seq<char>, Seq<Seq<char>>)>, f: spec_fn(Seq<char>) -> Seq<char>, n: int)
    requires
        vstd::relations::injective(f),
        0 <= n <= g.len(),
    ensures
        unique_ids(map_groups(g, f), n) == unique_ids(g, n).map_values(f),
        unique_ids(g, n).no_duplicates(),
    decreases n,
{
    if n == 0 {
        assert(unique_ids(g, 0).map_values(f) =~= unique_ids(map_groups(g, f), 0));
    } else {
        lemma_unique_ids_rename_any(g, f, n - 1);
        if g[n - 1].1.len() == 1 {
            assert(map_groups(g, f)[n - 1].1[0] == f(g[n - 1].1[0]));
            lemma_issue_rename(unique_ids(g, n - 1), g[n - 1].1[0], f);
            lemma_issue_facts(unique_ids(g, n - 1), g[n - 1].1[0]);
        }
    }
}


// ---------------------------------------------------------------------------
// Step 5: the n-degree hashes of each shared group
// ---------------------------------------------------------------------------

proof fn lemma_nd_rename(l: Seq<Seq<char>>, j: int, cids: Seq<Seq<char>>, idx1: Seq<(String, Vec<Quad>)>,
    idx2: Seq<(String, Vec<Quad>)>, f: spec_fn(Seq<char>) -> Seq<char>)
    requires
        vstd::relations::injective(f),
        renamed_index(idx1, idx2, f),
        no_blank_predicates(idx1),
        cids.no_duplicates(),
        0 <= j <= l.len(),
    ensures
        nd_results(l.map_values(f), j, cids.map_values(f), idx2)
            == nd_results(l, j, cids, idx1).map_values(|y: (Seq<char>, Seq<Seq<char>>)| map_pair(y, f)),
    decreases j,
{
    let mp = |y: (Seq<char>, Seq<Seq<char>>)| map_pair(y, f);
    if j == 0 {
        assert(nd_results(l, 0, cids, idx1).map_values(mp) =~= Seq::empty());
    } else {
        lemma_nd_rename(l, j - 1, cids, idx1, idx2, f);
        let x = l[j - 1];
        assert(l.map_values(f)[j - 1] == f(x));
        lemma_map_contains(cids, f, x);
        let prev = nd_results(l, j - 1, cids, idx1);
        if !cids.contains(x) {
            assert(seq![x].map_values(f) =~= seq![f(x)]);
            assert(seq![x].no_duplicates());
            lemma_hnd_rename(x, "c14n"@, cids, "b"@, seq![x], idx1, idx2, f, idx1.len() - 1);
            assert(prev.push(hnd_spec(x, "c14n"@, cids, "b"@, seq![x], idx1, idx1.len() - 1)).map_values(mp)
                =~= prev.map_values(mp).push(mp(hnd_spec(x, "c14n"@, cids, "b"@, seq![x], idx1, idx1.len() - 1))));
        }
    }
}

proof fn lemma_nd_prefix(l1: Seq<Seq<char>>, l2: Seq<Seq<char>>, j: int, cids: Seq<Seq<char>>, idx: Seq<(String, Vec<Quad>)>)
    requires
        0 <= j <= l1.len(),
        j <= l2.len(),
        forall|i: int| 0 <= i < j ==> l1[i] == l2[i],
    ensures
        nd_results(l1, j, cids, idx) == nd_results(l2, j, cids, idx),
    decreases j,
{
    if j > 0 {
        lemma_nd_prefix(l1, l2, j - 1, cids, idx);
        assert(l1[j - 1] == l2[j - 1]);
    }
}

proof fn lemma_nd_concat(a: Seq<Seq<char>>, b: Seq<Seq<char>>, j: int, cids: Seq<Seq<char>>, idx: Seq<(String, Vec<Quad>)>)
    requires
        0 <= j <= b.len(),
    ensures
        nd_results(a + b, a.len() + j, cids, idx) == nd_results(a, a.len() as int, cids, idx) + nd_results(b, j, cids, idx),
    decreases j,
{
    if j == 0 {
        lemma_nd_prefix(a + b, a, a.len() as int, cids, idx);
        assert(nd_results(a, a.len() as int, cids, idx) + nd_results(b, 0, cids, idx)
            =~= nd_results(a, a.len() as int, cids, idx));
    } else {
        lemma_nd_concat(a, b, j - 1, cids, idx);
        assert((a + b)[a.len() + j - 1] == b[j - 1]);
        let pa = nd_results(a, a.len() as int, cids, idx);
        let pb = nd_results(b, j - 1, cids, idx);
        let x = b[j - 1];
        assert((pa + pb).push(hnd_spec(x, "c14n"@, cids, "b"@, seq![x], idx, idx.len() - 1))
            =~= pa + pb.push(hnd_spec(x, "c14n"@, cids, "b"@, seq![x], idx, idx.len() - 1)));
    }
}

/// The n-degree results of a list in another order are those of the list, in
/// another order.
proof fn lemma_nd_perm(s: Seq<Seq<char>>, t: Seq<Seq<char>>, cids: Seq<Seq<char>>, idx: Seq<(String, Vec<Quad>)>)
    requires
        s.to_multiset() == t.to_multiset(),
    ensures
        nd_results(s, s.len() as int, cids, idx).to_multiset() == nd_results(t, t.len() as int, cids, idx).to_multiset(),
    decreases s.len(),
{
    broadcast use vstd::multiset::group_multiset_axioms;
    broadcast use vstd::seq_lib::group_to_multiset_ensures;
    vstd::seq_lib::to_multiset_len(s);
    vstd::seq_lib::to_multiset_len(t);
    if s.len() == 0 {
        assert(s =~= t);
    } else {
        let n = s.len() - 1;
        let q = s.last();
        assert(s.to_multiset().count(q) > 0);
        assert(t.contains(q));
        let j = choose|j: int| 0 <= j < t.len() && t[j] == q;
        let s2 = s.drop_last();
        let t2 = t.remove(j);
        assert(s2 =~= s.remove(n));
        assert(s2.to_multiset() == t2.to_multiset());
        lemma_nd_perm(s2, t2, cids, idx);
        let t0 = t.subrange(0, j);
        let t1 = t.subrange(j + 1, t.len() as int);
        let sq = seq![q];
        assert(s =~= s2 + sq);
        assert(t =~= (t0 + sq) + t1);
        assert(t2 =~= t0 + t1);
        lemma_nd_concat(s2, sq, 1, cids, idx);
        lemma_nd_concat(t0 + sq, t1, t1.len() as int, cids, idx);
        lemma_nd_concat(t0, sq, 1, cids, idx);
        lemma_nd_concat(t0, t1, t1.len() as int, cids, idx);
        let m0 = nd_results(t0, t0.len() as int, cids, idx);
        let m1 = nd_results(t1, t1.len() as int, cids, idx);
        let mq = nd_results(sq, 1, cids, idx);
        let ms2 = nd_results(s2, s2.len() as int, cids, idx);
        vstd::seq_lib::lemma_multiset_commutative(ms2, mq);
        vstd::seq_lib::lemma_multiset_commutative(m0 + mq, m1);
        vstd::seq_lib::lemma_multiset_commutative(m0, mq);
        vstd::seq_lib::lemma_multiset_commutative(m0, m1);
        assert((t0 + sq).len() == t0.len() + 1);
        assert(nd_results(t, t.len() as int, cids, idx).to_multiset()
            =~= m0.to_multiset().add(mq.to_multiset()).add(m1.to_multiset()));
        assert(nd_results(t2, t2.len() as int, cids, idx).to_multiset() =~= m0.to_multiset().add(m1.to_multiset()));
        assert(nd_results(s, s.len() as int, cids, idx).to_multiset() =~= ms2.to_multiset().add(mq.to_multiset()));
    }
}

proof fn lemma_hashes_determine_perm(v: Seq<(Seq<char>, Seq<Seq<char>>)>, w: Seq<(Seq<char>, Seq<Seq<char>>)>)
    requires
        hashes_determine(v),
        w.to_multiset() == v.to_multiset(),
    ensures
        hashes_determine(w),
{
    broadcast use vstd::seq_lib::group_to_multiset_ensures;
    assert forall|i: int, j: int| 0 <= i < w.len() && 0 <= j < w.len() && (#[trigger] w[i]).0 == (#[trigger] w[j]).0
        implies w[i] == w[j] by {
        assert(w.to_multiset().count(w[i]) > 0);
        assert(w.to_multiset().count(w[j]) > 0);
        assert(v.contains(w[i]));
        assert(v.contains(w[j]));
        let a = choose|a: int| 0 <= a < v.len() && v[a] == w[i];
        let b = choose|b: int| 0 <= b < v.len() && v[b] == w[j];
        assert(v[a].0 == v[b].0);
    }
}

proof fn lemma_shared_lists_rename(g: Seq<(Seq<char>, Seq<Seq<char>>)>, f: spec_fn(Seq<char>) -> Seq<char>, n: int)
    requires
        0 <= n <= g.len(),
    ensures
        shared_lists(map_groups(g, f), n).len() == shared_lists(g, n).len(),
        forall|u: int| 0 <= u < shared_lists(g, n).len() ==> (#[trigger] shared_lists(map_groups(g, f), n)[u]).to_multiset()
            == shared_lists(g, n)[u].map_values(f).to_multiset(),
    decreases n,
{
    if n > 0 {
        lemma_shared_lists_rename(g, f, n - 1);
        let mg = map_groups(g, f);
        assert(mg[n - 1].1 == g[n - 1].1.map_values(f));
        if g[n - 1].1.len() != 1 {
            let x = g[n - 1].1;
            lemma_sort_multiset(x.map_values(f));
            lemma_sort_multiset(x);
            lemma_map_perm(sort_spec(x), x, f);
        }
    }
}

/// Step 5 of the algorithm commutes with renaming, when within each shared
/// group equal n-degree hashes come only from equal results.
proof fn lemma_shared_walk_rename(lists1: Seq<Seq<Seq<char>>>, lists2: Seq<Seq<Seq<char>>>, u: int, ids: Seq<Seq<char>>,
    idx1: Seq<(String, Vec<Quad>)>, idx2: Seq<(String, Vec<Quad>)>, f: spec_fn(Seq<char>) -> Seq<char>)
    requires
        vstd::relations::injective(f),
        renamed_index(idx1, idx2, f),
        no_blank_predicates(idx1),
        ids.no_duplicates(),
        0 <= u <= lists1.len(),
        lists2.len() == lists1.len(),
        forall|k: int| 0 <= k < lists1.len() ==> (#[trigger] lists2[k]).to_multiset() == lists1[k].map_values(f).to_multiset(),
        forall|k: int| 0 <= k < u ==> hashes_determine(nd_results(#[trigger] lists1[k], lists1[k].len() as int,
            shared_walk(lists1, k, ids, idx1), idx1)),
    ensures
        shared_walk(lists2, u, ids.map_values(f), idx2) == shared_walk(lists1, u, ids, idx1).map_values(f),
        shared_walk(lists1, u, ids, idx1).no_duplicates(),
    decreases u,
{
    if u > 0 {
        lemma_shared_walk_rename(lists1, lists2, u - 1, ids, idx1, idx2, f);
        let mp = |y: (Seq<char>, Seq<Seq<char>>)| map_pair(y, f);
        let prev1 = shared_walk(lists1, u - 1, ids, idx1);
        let prev2 = shared_walk(lists2, u - 1, ids.map_values(f), idx2);
        let l1 = lists1[u - 1];
        let l2 = lists2[u - 1];
        let v1 = nd_results(l1, l1.len() as int, prev1, idx1);
        let v2 = nd_results(l2, l2.len() as int, prev2, idx2);
        lemma_nd_rename(l1, l1.len() as int, prev1, idx1, idx2, f);
        let lm = l1.map_values(f);
        assert(v1.map_values(mp) == nd_results(lm, lm.len() as int, prev2, idx2));
        lemma_nd_perm(l2, lm, prev2, idx2);
        assert(hashes_determine(v1));
        lemma_hp_sort_facts(v1);
        lemma_hp_sort_facts(v2);
        lemma_hp_sort_map(v1, f);
        lemma_hp_sort_facts(v1.map_values(mp));
        let r1 = hp_sort(v1);
        let a = hp_sort(v1.map_values(mp));
        let b = hp_sort(v2);
        lemma_hashes_determine_perm(v1, r1);
        assert(hashes_determine(a)) by {
            assert forall|i: int, j: int| 0 <= i < a.len() && 0 <= j < a.len() && (#[trigger] a[i]).0 == (#[trigger] a[j]).0
                implies a[i] == a[j] by {
                assert(a[i] == mp(r1[i]) && a[j] == mp(r1[j]));
                assert(r1[i] == r1[j]);
            }
        }
        lemma_hp_sorted_unique(a, b);
        assert(b == r1.map_values(mp));
        lemma_issue_results_rename(prev1, r1, r1.len() as int, f);
    }
}


// ---------------------------------------------------------------------------
// The canonical form of a renamed dataset
// ---------------------------------------------------------------------------

/// Within each group of blank nodes that share a first-degree hash (Step 5 of
/// the canonicalization algorithm), equal n-degree hashes come only from equal
/// results: no two blank nodes of a group tie with different temporary
/// identifiers.
pub open spec fn nd_hashes_decide(idx: Seq<(String, Vec<Quad>)>) -> bool {
    let groups = fd_groups(idx, idx.len() as int);
    let lists = shared_lists(groups, groups.len() as int);
    let ids0 = unique_ids(groups, groups.len() as int);
    forall|k: int| 0 <= k < lists.len() ==> hashes_determine(nd_results(#[trigger] lists[k], lists[k].len() as int,
        shared_walk(lists, k, ids0, idx), idx))
}

proof fn lemma_dataset_predicates(qs: Seq<QuadView>, idx: Seq<(String, Vec<Quad>)>)
    requires
        index_of_dataset(idx, qs),
        forall|k: int| 0 <= k < qs.len() ==> !((#[trigger] qs[k]).predicate is Blank),
    ensures
        no_blank_predicates(idx),
{
    lemma_keys_no_dup(term_pairs(qs), 4 * qs.len() as int);
    assert(index_keys(idx).len() == idx.len());
    assert forall|b: Seq<char>, j: int| 0 <= j < index_lookup(idx, b).len() implies
        !((#[trigger] index_lookup(idx, b)[j]).predicate is Blank) by {
        let keys = index_keys(idx);
        let k = keys.index_of(b);
        assert(keys[k] == b);
        assert(index_lookup(idx, b) == mentions(qs, b));
        lemma_mention_source(term_pairs(qs), 4 * qs.len() as int, b, j);
        let i = choose|i: int| 0 <= i < 4 * qs.len() && #[trigger] term_pairs(qs)[i].1 == mentions(qs, b)[j];
        assert(term_pairs(qs)[i].1 == qs[i / 4]);
    }
}

/// Canonical labels do not depend on the labels of the input (RDFC-1.0), also
/// for datasets whose blank nodes need n-degree hashes: renaming the blank
/// nodes of qs injectively leaves the canonical form unchanged, when no
/// predicate is a blank node and no two blank nodes of a group that shares a
/// first-degree hash tie on their n-degree hash with different results. The
/// issuers and indexes are those that `canonicalize` describes.
pub proof fn lemma_canonical_text_rename(qs: Seq<QuadView>, f: spec_fn(Seq<char>) -> Seq<char>,
    iss1: IdentifierIssuer, idx1: Seq<(String, Vec<Quad>)>, iss2: IdentifierIssuer, idx2: Seq<(String, Vec<Quad>)>)
    requires
        vstd::relations::injective(f),
        forall|k: int| 0 <= k < qs.len() ==> !((#[trigger] qs[k]).predicate is Blank),
        index_of_dataset(idx1, qs),
        index_of_dataset(idx2, rename_all(qs, f)),
        nd_hashes_decide(idx1),
        iss1.wf(),
        iss2.wf(),
        iss1.prefix@ == "c14n"@,
        iss2.prefix@ == "c14n"@,
        iss1.ids() == canonical_ids(idx1),
        iss2.ids() == canonical_ids(idx2),
        within(blank_keys(qs), iss1.ids()),
    ensures
        canonical_text(rename_all(qs, f), iss2) == canonical_text(qs, iss1),
{
    let rq = rename_all(qs, f);
    lemma_renamed_index(qs, f, idx1, idx2);
    lemma_dataset_predicates(qs, idx1);
    lemma_fd_groups_rename(qs, f, idx1, idx2, idx1.len() as int);
    let g1 = fd_groups(idx1, idx1.len() as int);
    let g2 = fd_groups(idx2, idx2.len() as int);
    assert(g2 == map_groups(g1, f));
    let n = g1.len() as int;
    lemma_unique_ids_rename_any(g1, f, n);
    lemma_shared_lists_rename(g1, f, n);
    let lists1 = shared_lists(g1, n);
    let lists2 = shared_lists(g2, n);
    let ids0 = unique_ids(g1, n);
    lemma_shared_walk_rename(lists1, lists2, lists1.len() as int, ids0, idx1, idx2, f);
    assert(iss2.ids() == iss1.ids().map_values(f));
    assert forall|k: int| 0 <= k < qs.len() implies #[trigger] relabel_canon(rq[k], iss2) == relabel_canon(qs[k], iss1) by {
        let q = qs[k];
        let k1 = blank_keys(qs);
        assert forall|t: int| 0 <= t < 4 implies (#[trigger] quad_term(q, t) matches TermView::Blank(c)
            ==> iss1.ids().contains(c)) by {
            match quad_term(q, t) {
                TermView::Blank(c) => {
                    vstd::arithmetic::div_mod::lemma_fundamental_div_mod_converse(4 * k + t, 4, k, t);
                    assert(term_pairs(qs)[4 * k + t].0 == quad_term(q, t));
                    lemma_key_contains(term_pairs(qs), 4 * qs.len() as int, 4 * k + t, c);
                    let jj = choose|jj: int| 0 <= jj < k1.len() && k1[jj] == c;
                    let ii = choose|ii: int| 0 <= ii < iss1.ids().len() && iss1.ids()[ii] == c;
                },
                _ => {},
            }
        }
        lemma_relabel_rename_quad(q, f, iss1, iss2);
    }
    assert(Seq::new(rq.len(), |k: int| quad_text(relabel_canon(rq[k], iss2)))
        =~= Seq::new(qs.len(), |k: int| quad_text(relabel_canon(qs[k], iss1))));
}

} // verus!
