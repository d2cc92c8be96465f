//! Hash Related Blank Node (RDFC-1.0, Section 4.7) as the n-degree hash
//! groups the blank nodes related to a node.

use vstd::prelude::*;
use crate::rdfc::{QuadView, TermView, Quad, related_entry, related_groups_spec, related_label, sha256_hex_spec,
    term_text, group_add, group_pos};
use crate::rdfc::renaming::lemma_group_pos_range;

verus! {

/// Some group of g has hash h and lists r.
pub open spec fn in_group(g: Seq<(Seq<char>, Seq<Seq<char>>)>, h: Seq<char>, r: Seq<char>) -> bool {
    exists|a: int| 0 <= a < g.len() && (#[trigger] g[a]).0 == h && g[a].1.contains(r)
}

/// Adding x to the group of hash h keeps every member and lists x under h.
proof fn lemma_group_add_member(g: Seq<(Seq<char>, Seq<Seq<char>>)>, h: Seq<char>, x: Seq<char>)
    ensures
        in_group(group_add(g, h, x), h, x),
        forall|h2: Seq<char>, y: Seq<char>| in_group(g, h2, y) ==> #[trigger] in_group(group_add(g, h, x), h2, y),
{
    lemma_group_pos_range(g, h, 0);
    let k = group_pos(g, h, 0);
    let r = group_add(g, h, x);
    if k < g.len() && g[k].0 == h {
        assert(r[k].1 == g[k].1.push(x));
        assert(r[k].1[g[k].1.len() as int] == x);
        assert(r[k].1.contains(x));
        assert forall|h2: Seq<char>, y: Seq<char>| in_group(g, h2, y) implies #[trigger] in_group(r, h2, y) by {
            let a = choose|a: int| 0 <= a < g.len() && (#[trigger] g[a]).0 == h2 && g[a].1.contains(y);
            if a == k {
                let j = choose|j: int| 0 <= j < g[k].1.len() && g[k].1[j] == y;
                assert(r[k].1[j] == y);
                assert(r[a].0 == h2 && r[a].1.contains(y));
            } else {
                assert(r[a] == g[a]);
            }
        }
    } else {
        assert(r[k] == (h, seq![x]));
        assert(seq![x][0] == x);
        assert(r[k].1.contains(x));
        assert forall|h2: Seq<char>, y: Seq<char>| in_group(g, h2, y) implies #[trigger] in_group(r, h2, y) by {
            let a = choose|a: int| 0 <= a < g.len() && (#[trigger] g[a]).0 == h2 && g[a].1.contains(y);
            if a < k {
                assert(r[a] == g[a]);
            } else {
                assert(r[a + 1] == g[a]);
            }
        }
    }
}

proof fn lemma_groups_collect(id: Seq<char>, qs: Seq<QuadView>, n: int, cp: Seq<char>, cids: Seq<Seq<char>>, tp: Seq<char>,
    tids: Seq<Seq<char>>, idx: Seq<(String, Vec<Quad>)>)
    requires
        0 <= n,
    ensures
        forall|m: int| 0 <= m < n ==> (#[trigger] related_entry(id, qs[m / 3], m % 3, cp, cids, tp, tids, idx)
            matches Some((h, r)) ==> in_group(related_groups_spec(id, qs, n, cp, cids, tp, tids, idx), h, r)),
    decreases n,
{
    if n > 0 {
        lemma_groups_collect(id, qs, n - 1, cp, cids, tp, tids, idx);
        let prev = related_groups_spec(id, qs, n - 1, cp, cids, tp, tids, idx);
        match related_entry(id, qs[(n - 1) / 3], (n - 1) % 3, cp, cids, tp, tids, idx) {
            Some((h, r)) => {
                lemma_group_add_member(prev, h, r);
            },
            None => {},
        }
    }
}

/// Hash Related Blank Node (RDFC-1.0, Section 4.7): a blank node r other than
/// id that a quad mentioning id holds as subject, object or graph name is
/// listed in the group whose hash is the SHA-256 of the position letter ('s',
/// 'o' or 'g' respectively), the N-Quads form of the quad's predicate and r's
/// label (its canonical, else temporary identifier, else first-degree hash).
pub proof fn lemma_related_hash_positions(id: Seq<char>, qs: Seq<QuadView>, cp: Seq<char>, cids: Seq<Seq<char>>,
    tp: Seq<char>, tids: Seq<Seq<char>>, idx: Seq<(String, Vec<Quad>)>, k: int)
    requires
        0 <= k < qs.len(),
    ensures
        ({
            let g = related_groups_spec(id, qs, 3 * qs.len() as int, cp, cids, tp, tids, idx);
            let q = qs[k];
            &&& q.subject matches TermView::Blank(r) ==> (r != id ==> in_group(g,
                sha256_hex_spec(seq!['s'] + term_text(q.predicate) + related_label(cp, cids, tp, tids, idx, r)), r))
            &&& q.object matches TermView::Blank(r) ==> (r != id ==> in_group(g,
                sha256_hex_spec(seq!['o'] + term_text(q.predicate) + related_label(cp, cids, tp, tids, idx, r)), r))
            &&& q.graph_name matches TermView::Blank(r) ==> (r != id ==> in_group(g,
                sha256_hex_spec(seq!['g'] + term_text(q.predicate) + related_label(cp, cids, tp, tids, idx, r)), r))
        }),
{
    let n = 3 * qs.len() as int;
    lemma_groups_collect(id, qs, n, cp, cids, tp, tids, idx);
    assert((3 * k) / 3 == k && (3 * k) % 3 == 0);
    assert((3 * k + 1) / 3 == k && (3 * k + 1) % 3 == 1);
    assert((3 * k + 2) / 3 == k && (3 * k + 2) % 3 == 2);
    let e0 = related_entry(id, qs[(3 * k) / 3], (3 * k) % 3, cp, cids, tp, tids, idx);
    let e1 = related_entry(id, qs[(3 * k + 1) / 3], (3 * k + 1) % 3, cp, cids, tp, tids, idx);
    let e2 = related_entry(id, qs[(3 * k + 2) / 3], (3 * k + 2) % 3, cp, cids, tp, tids, idx);
}

} // verus!
