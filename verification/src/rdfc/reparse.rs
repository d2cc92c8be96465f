//! Reading back the canonical form: the N-Quads lines that the serializer
//! writes parse to the quads they were written from.

use vstd::prelude::*;
use crate::rdfc::{TermView, QuadView, escape_spec, escape_char_spec, hex_upper, lit_scan, hex_value, hex_group,
    hex_digits_value, hex_digit_value, group_len, char_or_replacement, find_char, label_end, ascii_ws, term_text,
    xsd_string, parse_term_spec, parse_literal_spec, skip_ws_spec, quad_text, parse_quad_spec, skip_unicode_ws,
    trim_end_pos, trim_spec, skipped_line, unicode_white_space, split_lines, parse_lines_spec, parse_nquads_spec,
    concat_spec};

verus! {

// ---------------------------------------------------------------------------
// Literal values
// ---------------------------------------------------------------------------

/// A literal value that the parser reads back from its escaped form: it holds
/// neither U+0008 nor U+000C, which are written as \b and \f.
pub open spec fn value_ok(v: Seq<char>) -> bool {
    forall|k: int| 0 <= k < v.len() ==> #[trigger] v[k] != '\x08' && v[k] != '\x0C'
}

proof fn lemma_escape_concat(a: Seq<char>, b: Seq<char>)
    ensures
        escape_spec(a + b) == escape_spec(a) + escape_spec(b),
    decreases b.len(),
{
    if b.len() == 0 {
        assert(a + b =~= a);
        assert(escape_spec(a) + escape_spec(b) =~= escape_spec(a));
    } else {
        lemma_escape_concat(a, b.drop_last());
        assert((a + b).drop_last() =~= a + b.drop_last());
        assert((a + b).last() == b.last());
        assert(escape_spec(a) + escape_spec(b.drop_last()) + escape_char_spec(b.last())
            =~= escape_spec(a) + (escape_spec(b.drop_last()) + escape_char_spec(b.last())));
    }
}

proof fn lemma_hex_upper_value(d: int)
    requires
        0 <= d < 16,
    ensures
        hex_digit_value(hex_upper(d)) == Some(d),
{
    if d < 10 {
        assert(((48 + d) as char) as int == 48 + d);
    } else {
        assert(((55 + d) as char) as int == 55 + d);
    }
}

/// The four hexadecimal digits 0, 0, a, b (upper case) have the value 16a + b.
proof fn lemma_hex4(a: int, b: int)
    requires
        0 <= a < 16,
        0 <= b < 16,
    ensures
        hex_value(seq!['0', '0', hex_upper(a), hex_upper(b)]) == Some(16 * a + b),
{
    let s = seq!['0', '0', hex_upper(a), hex_upper(b)];
    lemma_hex_upper_value(a);
    lemma_hex_upper_value(b);
    assert(hex_digit_value('0') == Some(0int));
    assert(s.drop_last() =~= seq!['0', '0', hex_upper(a)]);
    assert(s.drop_last().drop_last() =~= seq!['0', '0']);
    assert(s.drop_last().drop_last().drop_last() =~= seq!['0']);
    assert(hex_digits_value(seq!['0']) == Some(0int));
    assert(hex_digits_value(seq!['0', '0']) == Some(0int));
    assert(hex_digits_value(seq!['0', '0', hex_upper(a)]) == Some(a));
    assert(hex_digits_value(s) == Some(16 * a + b));
}

/// The escape of one character is read back as that character.
proof fn lemma_lit_scan_char(l: Seq<char>, p: int, acc: Seq<char>, c: char)
    requires
        c != '\x08' && c != '\x0C',
        0 <= p,
        p + escape_char_spec(c).len() < l.len(),
        l.subrange(p, p + escape_char_spec(c).len()) == escape_char_spec(c),
    ensures
        lit_scan(l, p, acc) == lit_scan(l, p + escape_char_spec(c).len(), acc.push(c)),
{
    let e = escape_char_spec(c);
    assert(forall|k: int| 0 <= k < e.len() ==> l[p + k] == #[trigger] e[k]) by {
        assert forall|k: int| 0 <= k < e.len() implies l[p + k] == #[trigger] e[k] by {
            assert(l.subrange(p, p + e.len())[k] == l[p + k]);
        }
    }
    if c == '\x0B' || c == '\x7F' || ((c as u32) < 0x20 && c != '\t' && c != '\n' && c != '\r') {
        let hi = (c as u32 / 16) as int;
        let lo = (c as u32 % 16) as int;
        if c == '\x0B' {
            assert(hex_upper(0) == '0' && hex_upper(11) == 'B');
            lemma_hex4(0, 11);
            assert(e == seq!['\\', 'u', '0', '0', hex_upper(0), hex_upper(11)]);
        } else if c == '\x7F' {
            assert(hex_upper(7) == '7' && hex_upper(15) == 'F');
            lemma_hex4(7, 15);
            assert(e == seq!['\\', 'u', '0', '0', hex_upper(7), hex_upper(15)]);
        } else {
            lemma_hex4(hi, lo);
            assert(e == seq!['\\', 'u', '0', '0', hex_upper(hi), hex_upper(lo)]);
        }
        assert(16 * hi + lo == c as int);
        let g = hex_group(l, p + 2, 4);
        assert(g =~= seq!['0', '0', hex_upper(hi), hex_upper(lo)]) by {
            if c == '\x0B' {
                assert(hi == 0 && lo == 11);
            } else if c == '\x7F' {
                assert(hi == 7 && lo == 15);
            }
        }
        assert(group_len(l, p + 2, 4) == 4);
        assert(hex_value(g) == Some(c as int));
        assert(char_or_replacement(c as int) == c);
        assert(l[p] == '\\' && l[p + 1] == 'u');
        assert(e.len() == 6);
        assert(lit_scan(l, p, acc) == lit_scan(l, p + 6, acc.push(c)));
    } else if c == '\t' || c == '\n' || c == '\r' || c == '"' || c == '\\' {
        assert(e.len() == 2);
        assert(l[p] == '\\' && l[p + 1] == e[1]);
    } else {
        assert(e == seq![c]);
        assert(e[0] == c);
        assert(l[p] == c);
    }
}

/// The escaped form of a value followed by a quote is read back as the value.
pub proof fn lemma_lit_scan_escaped(l: Seq<char>, p: int, acc: Seq<char>, v: Seq<char>)
    requires
        value_ok(v),
        0 <= p,
        p + escape_spec(v).len() < l.len(),
        l.subrange(p, p + escape_spec(v).len()) == escape_spec(v),
        l[p + escape_spec(v).len()] == '"',
    ensures
        lit_scan(l, p, acc) == Some((acc + v, p + escape_spec(v).len() + 1)),
    decreases v.len(),
{
    if v.len() == 0 {
        assert(acc + v =~= acc);
    } else {
        let c = v[0];
        let r = v.drop_first();
        assert(v =~= seq![c] + r);
        lemma_escape_concat(seq![c], r);
        assert(escape_spec(seq![c]) == escape_char_spec(c)) by {
            assert(seq![c].drop_last() =~= Seq::<char>::empty());
            assert(escape_spec(Seq::<char>::empty()) == Seq::<char>::empty());
            assert(Seq::<char>::empty() + escape_char_spec(c) =~= escape_char_spec(c));
        }
        let n = escape_char_spec(c).len() as int;
        assert(escape_spec(v) == escape_char_spec(c) + escape_spec(r));
        assert(escape_spec(v).subrange(0, n) =~= escape_char_spec(c));
        assert(escape_spec(v).subrange(n, escape_spec(v).len() as int) =~= escape_spec(r));
        assert(l.subrange(p, p + n) =~= escape_spec(v).subrange(0, n));
        assert(l.subrange(p + n, p + n + escape_spec(r).len()) =~= escape_spec(v).subrange(n, escape_spec(v).len() as int));
        assert(value_ok(r)) by {
            assert forall|k: int| 0 <= k < r.len() implies #[trigger] r[k] != '\x08' && r[k] != '\x0C' by {
                assert(r[k] == v[k + 1]);
            }
        }
        assert(v[0] != '\x08' && v[0] != '\x0C');
        lemma_lit_scan_char(l, p, acc, c);
        lemma_lit_scan_escaped(l, p + n, acc.push(c), r);
        assert(acc.push(c) + r =~= acc + v);
    }
}

// ---------------------------------------------------------------------------
// Scanning for delimiters
// ---------------------------------------------------------------------------

proof fn lemma_find_char_at(l: Seq<char>, p: int, e: int, c: char)
    requires
        0 <= p <= e < l.len(),
        l[e] == c,
        forall|k: int| p <= k < e ==> #[trigger] l[k] != c,
    ensures
        find_char(l, p, c) == e,
    decreases e - p,
{
    if p < e {
        lemma_find_char_at(l, p + 1, e, c);
    }
}

proof fn lemma_label_end_at(l: Seq<char>, p: int, e: int)
    requires
        0 <= p <= e < l.len(),
        ascii_ws(l[e]) || l[e] == '.' || l[e] == ',',
        forall|k: int| p <= k < e ==> !ascii_ws(#[trigger] l[k]) && l[k] != '.' && l[k] != ',',
    ensures
        label_end(l, p) == e,
    decreases e - p,
{
    if p < e {
        lemma_label_end_at(l, p + 1, e);
    }
}


// ---------------------------------------------------------------------------
// Terms
// ---------------------------------------------------------------------------

/// An IRI that its written form delimits: no '>' and no line feed.
pub open spec fn iri_ok(i: Seq<char>) -> bool {
    forall|k: int| 0 <= k < i.len() ==> #[trigger] i[k] != '>' && i[k] != '\n'
}

/// A blank node label or language tag that its written form delimits: no
/// ASCII whitespace, '.' or ','.
pub open spec fn label_ok(b: Seq<char>) -> bool {
    forall|k: int| 0 <= k < b.len() ==> !ascii_ws(#[trigger] b[k]) && b[k] != '.' && b[k] != ','
}

/// A term that the parser reads back from its N-Quads form: as the parser
/// produces them, and a literal's datatype neither beside a language tag nor
/// xsd:string (which is not written).
pub open spec fn term_ok(t: TermView) -> bool {
    match t {
        TermView::Iri(i) => iri_ok(i),
        TermView::Blank(b) => label_ok(b),
        TermView::Literal(v, dt, lang) => value_ok(v) && match lang {
            Some(g) => label_ok(g) && dt is None,
            None => match dt {
                Some(d) => iri_ok(d) && d != xsd_string(),
                None => true,
            },
        },
        TermView::DefaultGraph => false,
    }
}

proof fn lemma_sub_at(l: Seq<char>, p: int, s: Seq<char>)
    requires
        0 <= p,
        p + s.len() <= l.len(),
        l.subrange(p, p + s.len()) == s,
    ensures
        forall|k: int| 0 <= k < s.len() ==> l[p + k] == #[trigger] s[k],
{
    assert forall|k: int| 0 <= k < s.len() implies l[p + k] == #[trigger] s[k] by {
        assert(l.subrange(p, p + s.len())[k] == l[p + k]);
    }
}

proof fn lemma_parse_iri_at(l: Seq<char>, p: int, i: Seq<char>, allow: bool)
    requires
        iri_ok(i),
        0 <= p,
        p + i.len() + 2 < l.len(),
        l.subrange(p, p + i.len() + 2) == seq!['<'] + i + seq!['>'],
    ensures
        parse_term_spec(l, p, allow) == Some((TermView::Iri(i), p + i.len() + 2)),
{
    let tt = seq!['<'] + i + seq!['>'];
    lemma_sub_at(l, p, tt);
    assert(tt[0] == '<');
    assert(l[p] == '<');
    assert(skip_ws_spec(l, p) == p);
    let e = p + i.len() + 1;
    assert(tt[i.len() as int + 1] == '>');
    assert forall|k: int| p <= k < e implies #[trigger] l[k] != '>' by {
        assert(l[p + (k - p)] == tt[k - p]);
        if k > p {
            assert(tt[k - p] == i[k - p - 1]);
        }
    }
    lemma_find_char_at(l, p, e, '>');
    assert(l.subrange(p + 1, e) =~= i) by {
        assert forall|k: int| 0 <= k < i.len() implies l.subrange(p + 1, e)[k] == i[k] by {
            assert(l[p + (k + 1)] == tt[k + 1]);
        }
    }
}

/// The written form of a term, followed by a space, is read back as the term.
pub proof fn lemma_parse_term_at(l: Seq<char>, p: int, t: TermView, allow: bool)
    requires
        term_ok(t),
        0 <= p,
        p + term_text(t).len() < l.len(),
        l.subrange(p, p + term_text(t).len()) == term_text(t),
        l[p + term_text(t).len()] == ' ',
    ensures
        parse_term_spec(l, p, allow) == Some((t, p + term_text(t).len())),
{
    let tt = term_text(t);
    lemma_sub_at(l, p, tt);
    match t {
        TermView::Iri(i) => {
            lemma_parse_iri_at(l, p, i, allow);
        },
        TermView::Blank(b) => {
            assert(tt[0] == '_' && tt[1] == ':');
            assert(l[p] == '_' && l[p + 1] == ':');
            assert(skip_ws_spec(l, p) == p);
            let e = p + 2 + b.len();
            assert forall|k: int| p + 2 <= k < e implies !ascii_ws(#[trigger] l[k]) && l[k] != '.' && l[k] != ',' by {
                assert(l[p + (k - p)] == tt[k - p]);
                assert(tt[k - p] == b[k - p - 2]);
            }
            lemma_label_end_at(l, p + 2, e);
            assert(l.subrange(p + 2, e) =~= b) by {
                assert forall|k: int| 0 <= k < b.len() implies l.subrange(p + 2, e)[k] == b[k] by {
                    assert(l[p + (k + 2)] == tt[k + 2]);
                }
            }
        },
        TermView::Literal(v, dt, lang) => {
            let ev = escape_spec(v);
            let n: int = ev.len() as int;
            let quoted = seq!['"'] + ev + seq!['"'];
            assert(tt.subrange(0, quoted.len() as int) =~= quoted) by {
                match lang {
                    Some(g) => {},
                    None => match dt {
                        Some(d) => {},
                        None => {},
                    },
                }
            }
            assert(quoted[0] == '"');
            assert(l[p] == '"');
            assert(skip_ws_spec(l, p) == p);
            assert(l.subrange(p + 1, p + 1 + n) =~= ev) by {
                assert forall|k: int| 0 <= k < n implies l.subrange(p + 1, p + 1 + n)[k] == ev[k] by {
                    assert(l[p + (k + 1)] == tt[k + 1]);
                    assert(tt[k + 1] == quoted[k + 1]);
                }
            }
            assert(l[p + 1 + n] == '"') by {
                assert(l[p + (n + 1)] == tt[n + 1]);
                assert(tt[n + 1] == quoted[n + 1]);
            }
            lemma_lit_scan_escaped(l, p + 1, Seq::empty(), v);
            assert(Seq::<char>::empty() + v =~= v);
            let q = p + n + 2;
            assert(parse_term_spec(l, p, allow) == parse_literal_spec(l, p));
            match lang {
                Some(g) => {
                    assert(tt == quoted + seq!['@'] + g);
                    assert(l[q] == '@') by {
                        assert(l[p + (n + 2)] == tt[n + 2]);
                    }
                    let e = q + 1 + g.len();
                    assert forall|k: int| q + 1 <= k < e implies !ascii_ws(#[trigger] l[k]) && l[k] != '.' && l[k] != ',' by {
                        assert(l[p + (k - p)] == tt[k - p]);
                        assert(tt[k - p] == g[k - q - 1]);
                    }
                    lemma_label_end_at(l, q + 1, e);
                    assert(l.subrange(q + 1, e) =~= g) by {
                        assert forall|k: int| 0 <= k < g.len() implies l.subrange(q + 1, e)[k] == g[k] by {
                            assert(l[p + (n + 3 + k)] == tt[n + 3 + k]);
                        }
                    }
                },
                None => match dt {
                    Some(d) => {
                        assert(tt == quoted + seq!['^', '^', '<'] + d + seq!['>']);
                        assert(l[q] == '^' && l[q + 1] == '^') by {
                            assert(l[p + (n + 2)] == tt[n + 2]);
                            assert(l[p + (n + 3)] == tt[n + 3]);
                        }
                        let di = seq!['<'] + d + seq!['>'];
                        assert(l.subrange(q + 2, q + 2 + d.len() + 2) =~= di) by {
                            assert forall|k: int| 0 <= k < di.len() implies l.subrange(q + 2, q + 2 + d.len() + 2)[k] == di[k] by {
                                assert(l[p + (n + 4 + k)] == tt[n + 4 + k]);
                            }
                        }
                        lemma_parse_iri_at(l, q + 2, d, false);
                    },
                    None => {
                        assert(tt == quoted);
                    },
                },
            }
        },
        TermView::DefaultGraph => {},
    }
}


// ---------------------------------------------------------------------------
// Lines
// ---------------------------------------------------------------------------

/// A quad that the parser reads back from its N-Quads line: subject,
/// predicate and object as `term_ok` says, and the default graph or such a
/// term as graph name.
pub open spec fn quad_ok(q: QuadView) -> bool {
    &&& term_ok(q.subject)
    &&& term_ok(q.predicate)
    &&& term_ok(q.object)
    &&& (q.graph_name is DefaultGraph || term_ok(q.graph_name))
}

/// No line feed in s.
pub open spec fn no_lf(s: Seq<char>) -> bool {
    forall|k: int| 0 <= k < s.len() ==> #[trigger] s[k] != '\n'
}

proof fn lemma_escape_no_lf(v: Seq<char>)
    ensures
        no_lf(escape_spec(v)),
    decreases v.len(),
{
    if v.len() > 0 {
        lemma_escape_no_lf(v.drop_last());
        let a = escape_spec(v.drop_last());
        let e = escape_char_spec(v.last());
        assert(no_lf(e));
        assert forall|k: int| 0 <= k < (a + e).len() implies #[trigger] (a + e)[k] != '\n' by {
            if k >= a.len() {
                assert((a + e)[k] == e[k - a.len()]);
            }
        }
    }
}

/// The written form of a term: it starts with '<', '_' or '"', has at least two
/// characters and no line feed.
proof fn lemma_term_text_shape(t: TermView)
    requires
        term_ok(t),
    ensures
        term_text(t).len() >= 2,
        term_text(t)[0] == '<' || term_text(t)[0] == '_' || term_text(t)[0] == '"',
        no_lf(term_text(t)),
{
    let tt = term_text(t);
    match t {
        TermView::Iri(i) => {
            assert forall|k: int| 0 <= k < tt.len() implies #[trigger] tt[k] != '\n' by {
                if 0 < k < tt.len() - 1 {
                    assert(tt[k] == i[k - 1]);
                }
            }
        },
        TermView::Blank(b) => {
            assert forall|k: int| 0 <= k < tt.len() implies #[trigger] tt[k] != '\n' by {
                if k >= 2 {
                    assert(tt[k] == b[k - 2]);
                    assert(!ascii_ws(b[k - 2]));
                }
            }
        },
        TermView::Literal(v, dt, lang) => {
            let ev = escape_spec(v);
            lemma_escape_no_lf(v);
            let quoted = seq!['"'] + ev + seq!['"'];
            assert(no_lf(quoted)) by {
                assert forall|k: int| 0 <= k < quoted.len() implies #[trigger] quoted[k] != '\n' by {
                    if 0 < k < quoted.len() - 1 {
                        assert(quoted[k] == ev[k - 1]);
                    }
                }
            }
            match lang {
                Some(g) => {
                    assert(tt == quoted + seq!['@'] + g);
                    assert forall|k: int| 0 <= k < tt.len() implies #[trigger] tt[k] != '\n' by {
                        if k < quoted.len() {
                            assert(tt[k] == quoted[k]);
                        } else if k > quoted.len() {
                            assert(tt[k] == g[k - quoted.len() - 1]);
                            assert(!ascii_ws(g[k - quoted.len() - 1]));
                        }
                    }
                },
                None => match dt {
                    Some(d) => {
                        assert(tt == quoted + seq!['^', '^', '<'] + d + seq!['>']);
                        assert forall|k: int| 0 <= k < tt.len() implies #[trigger] tt[k] != '\n' by {
                            if k < quoted.len() {
                                assert(tt[k] == quoted[k]);
                            } else if quoted.len() + 3 <= k < tt.len() - 1 {
                                assert(tt[k] == d[k - quoted.len() - 3]);
                            }
                        }
                    },
                    None => {
                        assert(tt == quoted);
                    },
                },
            }
            assert(tt[0] == quoted[0]);
        },
        TermView::DefaultGraph => {},
    }
}

proof fn lemma_in_concat(a: Seq<char>, t: Seq<char>, b: Seq<char>)
    requires
        b.len() > 0,
    ensures
        (a + t + b).subrange(a.len() as int, a.len() + t.len() as int) == t,
        (a + t + b)[a.len() + t.len() as int] == b[0],
{
    assert((a + t + b).subrange(a.len() as int, a.len() + t.len() as int) =~= t);
}

/// The N-Quads line of a quad, without its line feed: the parser reads it back
/// as the quad, trimming leaves it unchanged, it is not skipped, and it holds no
/// line feed.
#[verifier::spinoff_prover]
#[verifier::rlimit(100)]
pub proof fn lemma_parse_quad_line(q: QuadView)
    requires
        quad_ok(q),
    ensures
        quad_text(q).len() > 0,
        quad_text(q).last() == '\n',
        no_lf(quad_text(q).drop_last()),
        trim_spec(quad_text(q).drop_last()) == quad_text(q).drop_last(),
        !skipped_line(quad_text(q).drop_last()),
        parse_quad_spec(quad_text(q).drop_last()) == Some(q),
{
    let ts = term_text(q.subject);
    let tp = term_text(q.predicate);
    let to = term_text(q.object);
    lemma_term_text_shape(q.subject);
    lemma_term_text_shape(q.predicate);
    lemma_term_text_shape(q.object);
    let g = match q.graph_name {
        TermView::DefaultGraph => Seq::<char>::empty(),
        other => seq![' '] + term_text(other),
    };
    let tail = g + seq![' ', '.'];
    let l = ts + seq![' '] + tp + seq![' '] + to + tail;
    assert(quad_text(q) == l.push('\n')) by {
        assert(quad_text(q) =~= l.push('\n'));
    }
    assert(quad_text(q).drop_last() =~= l);
    let p1 = ts.len() as int;
    let p2 = p1 + 1 + tp.len();
    let p3 = p2 + 1 + to.len();
    // Subject.
    lemma_in_concat(Seq::empty(), ts, seq![' '] + tp + seq![' '] + to + tail);
    assert(Seq::<char>::empty() + ts + (seq![' '] + tp + seq![' '] + to + tail) =~= l);
    lemma_parse_term_at(l, 0, q.subject, false);
    assert(l[p1 + 1] == tp[0]);
    assert(skip_ws_spec(l, p1) == p1 + 1) by {
        assert(skip_ws_spec(l, p1 + 1) == p1 + 1);
    }
    // Predicate.
    lemma_in_concat(ts + seq![' '], tp, seq![' '] + to + tail);
    assert(ts + seq![' '] + tp + (seq![' '] + to + tail) =~= l);
    lemma_parse_term_at(l, p1 + 1, q.predicate, false);
    assert(l[p2 + 1] == to[0]);
    assert(skip_ws_spec(l, p2) == p2 + 1) by {
        assert(skip_ws_spec(l, p2 + 1) == p2 + 1);
    }
    // Object.
    lemma_in_concat(ts + seq![' '] + tp + seq![' '], to, tail);
    assert(ts + seq![' '] + tp + seq![' '] + to + tail =~= l);
    lemma_parse_term_at(l, p2 + 1, q.object, false);
    assert(l.len() == p3 + tail.len());
    assert(forall|k: int| 0 <= k < tail.len() ==> l[p3 + k] == #[trigger] tail[k]);
    match q.graph_name {
        TermView::DefaultGraph => {
            assert(tail =~= seq![' ', '.']);
            assert(l[p3] == ' ' && l[p3 + 1] == '.') by {
                assert(tail[0] == ' ' && tail[1] == '.');
            }
            assert(skip_ws_spec(l, p3) == p3 + 1) by {
                assert(skip_ws_spec(l, p3 + 1) == p3 + 1);
            }
            assert(skip_unicode_ws(l, p3 + 1) == p3 + 1);
        },
        other => {
            let tg = term_text(other);
            lemma_term_text_shape(other);
            assert(tail =~= seq![' '] + tg + seq![' ', '.']);
            let p4 = p3 + 1 + tg.len();
            assert(l[p3] == ' ') by { assert(tail[0] == ' '); }
            assert(l[p3 + 1] == tg[0]) by { assert(tail[1] == tg[0]); }
            assert(l[p4] == ' ' && l[p4 + 1] == '.') by {
                assert(tail[1 + tg.len() as int] == ' ' && tail[2 + tg.len() as int] == '.');
            }
            assert(skip_ws_spec(l, p3) == p3 + 1) by {
                assert(skip_ws_spec(l, p3 + 1) == p3 + 1);
            }
            lemma_in_concat(ts + seq![' '] + tp + seq![' '] + to + seq![' '], tg, seq![' ', '.']);
            assert(ts + seq![' '] + tp + seq![' '] + to + seq![' '] + tg + seq![' ', '.'] =~= l);
            lemma_parse_term_at(l, p3 + 1, other, true);
            assert(skip_ws_spec(l, p4) == p4 + 1) by {
                assert(skip_ws_spec(l, p4 + 1) == p4 + 1);
            }
            assert(skip_unicode_ws(l, p4 + 1) == p4 + 1);
        },
    }
    // The line is its own trim, and no line feed.
    assert(l[0] == ts[0]);
    assert(!unicode_white_space(l[0]));
    assert(skip_unicode_ws(l, 0) == 0);
    assert(l[l.len() - 1] == '.') by {
        assert(tail[tail.len() - 1] == '.');
    }
    assert(trim_end_pos(l, l.len() as int) == l.len());
    assert(l.subrange(0, l.len() as int) =~= l);
    assert(no_lf(l)) by {
        assert forall|k: int| 0 <= k < l.len() implies #[trigger] l[k] != '\n' by {
            if k < p1 {
                assert(l[k] == ts[k]);
            } else if p1 < k < p2 {
                assert(l[k] == tp[k - p1 - 1]);
            } else if p2 < k < p3 {
                assert(l[k] == to[k - p2 - 1]);
            } else if k >= p3 {
                assert(l[k] == tail[k - p3]);
                match q.graph_name {
                    TermView::DefaultGraph => {},
                    other => {
                        let tg = term_text(other);
                        if 1 <= k - p3 < 1 + tg.len() {
                            assert(tail[k - p3] == tg[k - p3 - 1]);
                        }
                    },
                }
            }
        }
    }
}


// ---------------------------------------------------------------------------
// Documents
// ---------------------------------------------------------------------------

proof fn lemma_split_lines_len(s: Seq<char>)
    ensures
        split_lines(s).len() >= 1,
    decreases s.len(),
{
    if s.len() > 0 {
        lemma_split_lines_len(s.drop_last());
    }
}

/// Appending text without a line feed extends the last line.
proof fn lemma_split_append(s: Seq<char>, line: Seq<char>)
    requires
        no_lf(line),
    ensures
        split_lines(s + line) == split_lines(s).update(split_lines(s).len() - 1, split_lines(s).last() + line),
    decreases line.len(),
{
    lemma_split_lines_len(s);
    let sp = split_lines(s);
    if line.len() == 0 {
        assert(s + line =~= s);
        assert(sp.last() + line =~= sp.last());
        assert(sp.update(sp.len() - 1, sp.last()) =~= sp);
    } else {
        let l2 = line.drop_last();
        let c = line.last();
        assert(no_lf(l2)) by {
            assert forall|k: int| 0 <= k < l2.len() implies #[trigger] l2[k] != '\n' by {
                assert(l2[k] == line[k]);
            }
        }
        assert(c != '\n');
        lemma_split_append(s, l2);
        assert((s + line).drop_last() =~= s + l2);
        assert((s + line).last() == c);
        let prev = split_lines(s + l2);
        assert(prev.last() == sp.last() + l2);
        assert((sp.last() + l2).push(c) =~= sp.last() + line);
        assert(prev.update(prev.len() - 1, prev.last().push(c)) =~= sp.update(sp.len() - 1, sp.last() + line));
    }
}

/// Texts that are lines: each ends with its only line feed.
pub open spec fn line_texts(ts: Seq<Seq<char>>) -> bool {
    forall|i: int| 0 <= i < ts.len() ==> #[trigger] ts[i].len() > 0 && ts[i].last() == '\n' && no_lf(ts[i].drop_last())
}

/// The texts without their line feeds.
pub open spec fn strip_lf(ts: Seq<Seq<char>>) -> Seq<Seq<char>> {
    Seq::new(ts.len(), |i: int| ts[i].drop_last())
}

proof fn lemma_split_texts(ts: Seq<Seq<char>>)
    requires
        line_texts(ts),
    ensures
        split_lines(concat_spec(ts)) == strip_lf(ts).push(Seq::empty()),
    decreases ts.len(),
{
    if ts.len() == 0 {
        assert(concat_spec(ts) == Seq::<char>::empty());
        assert(split_lines(Seq::<char>::empty()) == seq![Seq::<char>::empty()]);
        assert(strip_lf(ts).push(Seq::empty()) =~= seq![Seq::<char>::empty()]);
    } else {
        let p = ts.drop_last();
        assert(line_texts(p)) by {
            assert forall|i: int| 0 <= i < p.len() implies #[trigger] p[i].len() > 0 && p[i].last() == '\n'
                && no_lf(p[i].drop_last()) by {
                assert(p[i] == ts[i]);
            }
        }
        lemma_split_texts(p);
        let c = concat_spec(p);
        let t = ts.last();
        assert(ts[ts.len() - 1] == t);
        let line = t.drop_last();
        assert(t =~= line.push('\n'));
        assert(concat_spec(ts) == c + t);
        assert(c + t =~= (c + line).push('\n'));
        lemma_split_append(c, line);
        assert((c + line).push('\n').drop_last() =~= c + line);
        let wp = strip_lf(p).push(Seq::<char>::empty());
        assert(split_lines(c + line) == wp.update(wp.len() - 1, wp.last() + line));
        assert(Seq::<char>::empty() + line =~= line);
        assert(wp.update(wp.len() - 1, line).push(Seq::<char>::empty()) =~= strip_lf(ts).push(Seq::empty()));
    }
}

proof fn lemma_parse_texts(ts: Seq<Seq<char>>, qq: Seq<QuadView>, k: int)
    requires
        ts.len() == qq.len(),
        forall|i: int| 0 <= i < ts.len() ==> trim_spec(#[trigger] ts[i].drop_last()) == ts[i].drop_last()
            && !skipped_line(ts[i].drop_last()) && parse_quad_spec(ts[i].drop_last()) == Some(qq[i]),
        0 <= k <= qq.len(),
    ensures
        parse_lines_spec(strip_lf(ts).push(Seq::empty()), k) == Some(qq.subrange(0, k)),
    decreases k,
{
    let ll = strip_lf(ts).push(Seq::<char>::empty());
    if k == 0 {
        assert(qq.subrange(0, 0) =~= Seq::<QuadView>::empty());
    } else {
        lemma_parse_texts(ts, qq, k - 1);
        assert(ll[k - 1] == ts[k - 1].drop_last());
        assert(qq.subrange(0, k - 1).push(qq[k - 1]) =~= qq.subrange(0, k));
    }
}

/// Reading back written quads: the concatenation of the N-Quads lines of quads
/// that `quad_ok` admits parses to those quads, in the same order.
pub proof fn lemma_reparse(qq: Seq<QuadView>)
    requires
        forall|i: int| 0 <= i < qq.len() ==> #[trigger] quad_ok(qq[i]),
    ensures
        parse_nquads_spec(concat_spec(qq.map_values(|q: QuadView| quad_text(q)))) == Some(qq),
{
    let ts = qq.map_values(|q: QuadView| quad_text(q));
    assert forall|i: int| 0 <= i < ts.len() implies #[trigger] ts[i].len() > 0 && ts[i].last() == '\n'
        && no_lf(ts[i].drop_last()) && trim_spec(ts[i].drop_last()) == ts[i].drop_last()
        && !skipped_line(ts[i].drop_last()) && parse_quad_spec(ts[i].drop_last()) == Some(qq[i]) by {
        lemma_parse_quad_line(qq[i]);
    }
    lemma_split_texts(ts);
    let ll = strip_lf(ts).push(Seq::<char>::empty());
    lemma_parse_texts(ts, qq, qq.len() as int);
    assert(ll[qq.len() as int] == Seq::<char>::empty());
    assert(trim_spec(Seq::<char>::empty()) == Seq::<char>::empty());
    assert(qq.subrange(0, qq.len() as int) =~= qq);
}

} // verus!
