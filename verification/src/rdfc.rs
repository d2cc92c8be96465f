//! RDF Dataset Canonicalization (W3C RDFC-1.0): the N-Quads data model, an
//! N-Quads parser and serializer, identifier issuers and the canonical
//! labelling of blank nodes.

use vstd::prelude::*;
use sha2::{Digest, Sha256};
use crate::mldsa_spec::lemma_block_split;

pub mod invariance;
pub mod reparse;
pub mod renaming;
pub mod related;

verus! {

// ---------------------------------------------------------------------------
// Text helpers
// ---------------------------------------------------------------------------

/// std's String::push: "Appends the given char to the end of this String".
pub assume_specification[ std::string::String::push ](string: &mut std::string::String, ch: char)
    ensures
        final(string)@ == old(string)@.push(ch),
;

/// The characters of `s`, in order.
pub fn text_chars(s: &str) -> (v: Vec<char>)
    ensures
        v@ == s@,
{
    let mut v: Vec<char> = Vec::new();
    for c in it: s.chars()
        invariant
            v@ == it.seq().subrange(0, it.index() as int),
    {
        v.push(c);
    }
    v
}

/// The String holding the characters of `v`.
pub fn text_string(v: &[char]) -> (s: String)
    ensures
        s@ == v@,
{
    let mut s = String::new();
    let mut i: usize = 0;
    while i < v.len()
        invariant
            0 <= i <= v@.len(),
            s@ == v@.subrange(0, i as int),
        decreases v@.len() - i,
    {
        s.push(v[i]);
        assert(v@.subrange(0, i + 1) =~= v@.subrange(0, i as int).push(v@[i as int]));
        i += 1;
    }
    assert(v@.subrange(0, v@.len() as int) =~= v@);
    s
}

/// Appends the characters of `s` to `out`.
pub(crate) fn append_chars(out: &mut Vec<char>, s: &[char])
    ensures
        final(out)@ == old(out)@ + s@,
{
    let ghost o = out@;
    let mut i: usize = 0;
    while i < s.len()
        invariant
            0 <= i <= s@.len(),
            out@ == o + s@.subrange(0, i as int),
            o == old(out)@,
        decreases s@.len() - i,
    {
        out.push(s[i]);
        assert(o + s@.subrange(0, i + 1) =~= (o + s@.subrange(0, i as int)).push(s@[i as int]));
        i += 1;
    }
    assert(s@.subrange(0, s@.len() as int) =~= s@);
}

// ---------------------------------------------------------------------------
// Data model
// ---------------------------------------------------------------------------

/// One RDF term: subject, predicate, object or graph name.
#[derive(Debug, Clone, PartialEq, Eq, PartialOrd, Ord, Hash)]
pub enum Term {
    /// `<iri>`
    Iri(String),
    /// `_:label`
    Blank(String),
    /// `"value"`, `"value"^^<dt>` or `"value"@lang`
    Literal { value: String, datatype: Option<String>, language: Option<String> },
    /// The default graph (an absent graph name).
    DefaultGraph,
}

/// A term by the characters of its parts.
pub enum TermView {
    Iri(Seq<char>),
    Blank(Seq<char>),
    Literal(Seq<char>, Option<Seq<char>>, Option<Seq<char>>),
    DefaultGraph,
}

pub open spec fn opt_view(o: Option<String>) -> Option<Seq<char>> {
    match o {
        Some(s) => Some(s@),
        None => None,
    }
}

impl View for Term {
    type V = TermView;

    open spec fn view(&self) -> TermView {
        match self {
            Term::Iri(s) => TermView::Iri(s@),
            Term::Blank(s) => TermView::Blank(s@),
            Term::Literal { value, datatype, language } =>
                TermView::Literal(value@, opt_view(*datatype), opt_view(*language)),
            Term::DefaultGraph => TermView::DefaultGraph,
        }
    }
}

/// One RDF quad: subject, predicate, object and graph name.
#[derive(Debug, Clone, PartialEq, Eq, Hash)]
pub struct Quad {
    pub subject: Term,
    pub predicate: Term,
    pub object: Term,
    /// `Term::DefaultGraph` in the default graph.
    pub graph_name: Term,
}

/// A quad by the views of its terms.
pub struct QuadView {
    pub subject: TermView,
    pub predicate: TermView,
    pub object: TermView,
    pub graph_name: TermView,
}

impl View for Quad {
    type V = QuadView;

    open spec fn view(&self) -> QuadView {
        QuadView {
            subject: self.subject@,
            predicate: self.predicate@,
            object: self.object@,
            graph_name: self.graph_name@,
        }
    }
}

// ---------------------------------------------------------------------------
// Serialization
// ---------------------------------------------------------------------------

/// The IRI of xsd:string, whose literals are written without a datatype.
pub open spec fn xsd_string() -> Seq<char> {
    "http://www.w3.org/2001/XMLSchema#string"@
}

/// Upper-case hexadecimal digit of d < 16.
pub open spec fn hex_upper(d: int) -> char {
    if d < 10 { (48 + d) as char } else { (55 + d) as char }
}

/// The canonical N-Quads escape of one character.
pub open spec fn escape_char_spec(c: char) -> Seq<char> {
    if c == '\x08' {
        seq!['\\', 'b']
    } else if c == '\t' {
        seq!['\\', 't']
    } else if c == '\n' {
        seq!['\\', 'n']
    } else if c == '\x0B' {
        seq!['\\', 'u', '0', '0', '0', 'B']
    } else if c == '\x0C' {
        seq!['\\', 'f']
    } else if c == '\r' {
        seq!['\\', 'r']
    } else if c == '"' {
        seq!['\\', '"']
    } else if c == '\\' {
        seq!['\\', '\\']
    } else if c == '\x7F' {
        seq!['\\', 'u', '0', '0', '7', 'F']
    } else if (c as u32) < 0x20 {
        seq!['\\', 'u', '0', '0', hex_upper((c as u32 / 16) as int), hex_upper((c as u32 % 16) as int)]
    } else {
        seq![c]
    }
}

/// Every character of s escaped.
pub open spec fn escape_spec(s: Seq<char>) -> Seq<char>
    decreases s.len(),
{
    if s.len() == 0 { Seq::empty() } else { escape_spec(s.drop_last()) + escape_char_spec(s.last()) }
}

/// The N-Quads form of a term (the default graph has none).
pub open spec fn term_text(t: TermView) -> Seq<char> {
    match t {
        TermView::Iri(i) => seq!['<'] + i + seq!['>'],
        TermView::Blank(b) => seq!['_', ':'] + b,
        TermView::DefaultGraph => Seq::empty(),
        TermView::Literal(v, dt, lang) => {
            let quoted = seq!['"'] + escape_spec(v) + seq!['"'];
            match lang {
                Some(l) => quoted + seq!['@'] + l,
                None => match dt {
                    Some(d) => if d == xsd_string() { quoted } else { quoted + seq!['^', '^', '<'] + d + seq!['>'] },
                    None => quoted,
                },
            }
        },
    }
}

/// The canonical N-Quads line of a quad: the terms separated by spaces, then
/// " .\n".
pub open spec fn quad_text(q: QuadView) -> Seq<char> {
    let g = match q.graph_name {
        TermView::DefaultGraph => Seq::empty(),
        other => seq![' '] + term_text(other),
    };
    term_text(q.subject) + seq![' '] + term_text(q.predicate) + seq![' '] + term_text(q.object) + g
        + seq![' ', '.', '\n']
}

/// Upper-case hexadecimal digit.
fn hex_upper_exec(d: u32) -> (c: char)
    requires
        d < 16,
    ensures
        c == hex_upper(d as int),
{
    if d < 10 {
        ((48 + d) as u8) as char
    } else {
        ((55 + d) as u8) as char
    }
}

/// Appends the escape of c to out.
fn push_escaped(out: &mut Vec<char>, c: char)
    ensures
        final(out)@ == old(out)@ + escape_char_spec(c),
{
    let ghost o = out@;
    if c == '\x08' {
        out.push('\\'); out.push('b');
    } else if c == '\t' {
        out.push('\\'); out.push('t');
    } else if c == '\n' {
        out.push('\\'); out.push('n');
    } else if c == '\x0B' {
        out.push('\\'); out.push('u'); out.push('0'); out.push('0'); out.push('0'); out.push('B');
    } else if c == '\x0C' {
        out.push('\\'); out.push('f');
    } else if c == '\r' {
        out.push('\\'); out.push('r');
    } else if c == '"' {
        out.push('\\'); out.push('"');
    } else if c == '\\' {
        out.push('\\'); out.push('\\');
    } else if c == '\x7F' {
        out.push('\\'); out.push('u'); out.push('0'); out.push('0'); out.push('7'); out.push('F');
    } else if (c as u32) < 0x20 {
        let hi = hex_upper_exec(c as u32 / 16);
        let lo = hex_upper_exec(c as u32 % 16);
        out.push('\\'); out.push('u'); out.push('0'); out.push('0'); out.push(hi); out.push(lo);
    } else {
        out.push(c);
    }
    assert(out@ =~= o + escape_char_spec(c));
}

/// The canonical N-Quads escape of every character of s.
fn escape_chars(s: &[char]) -> (r: Vec<char>)
    ensures
        r@ == escape_spec(s@),
{
    let mut out: Vec<char> = Vec::new();
    let mut i: usize = 0;
    while i < s.len()
        invariant
            0 <= i <= s@.len(),
            out@ == escape_spec(s@.subrange(0, i as int)),
        decreases s@.len() - i,
    {
        push_escaped(&mut out, s[i]);
        assert(s@.subrange(0, i + 1).drop_last() =~= s@.subrange(0, i as int));
        i += 1;
    }
    assert(s@.subrange(0, s@.len() as int) =~= s@);
    out
}

/// Escapes a string value for N-Quads output (canonical form of RDFC-1.0).
pub fn escape_string(s: &str) -> (r: String)
    ensures
        r@ == escape_spec(s@),
{
    let v = text_chars(s);
    let e = escape_chars(v.as_slice());
    text_string(e.as_slice())
}

impl Term {
    /// Whether the term is a blank node.
    pub fn is_blank(&self) -> (b: bool)
        ensures
            b == (self@ is Blank),
    {
        match self {
            Term::Blank(_) => true,
            _ => false,
        }
    }

    /// The label of a blank node.
    pub fn blank_id(&self) -> (r: Option<&str>)
        ensures
            match self@ {
                TermView::Blank(id) => r matches Some(s) && s@ == id,
                _ => r is None,
            },
    {
        match self {
            Term::Blank(id) => Some(id.as_str()),
            _ => None,
        }
    }

    /// Appends the N-Quads form of the term to out.
    fn write_nquads(&self, out: &mut Vec<char>)
        ensures
            final(out)@ == old(out)@ + term_text(self@),
    {
        let ghost o = out@;
        match self {
            Term::Iri(iri) => {
                out.push('<');
                let v = text_chars(iri.as_str());
                append_chars(out, v.as_slice());
                out.push('>');
                assert(out@ =~= o + term_text(self@));
            },
            Term::Blank(id) => {
                out.push('_');
                out.push(':');
                let v = text_chars(id.as_str());
                append_chars(out, v.as_slice());
                assert(out@ =~= o + term_text(self@));
            },
            Term::DefaultGraph => {
                assert(out@ =~= o + term_text(self@));
            },
            Term::Literal { value, datatype, language } => {
                let v = text_chars(value.as_str());
                let esc = escape_chars(v.as_slice());
                out.push('"');
                append_chars(out, esc.as_slice());
                out.push('"');
                let ghost quoted = seq!['"'] + escape_spec(value@) + seq!['"'];
                assert(out@ =~= o + quoted);
                match language {
                    Some(lang) => {
                        out.push('@');
                        let l = text_chars(lang.as_str());
                        append_chars(out, l.as_slice());
                        assert(out@ =~= o + term_text(self@));
                    },
                    None => match datatype {
                        Some(dt) => {
                            let xsd = text_string(text_chars("http://www.w3.org/2001/XMLSchema#string").as_slice());
                            if *dt == xsd {
                                assert(out@ =~= o + term_text(self@));
                            } else {
                                out.push('^');
                                out.push('^');
                                out.push('<');
                                let d = text_chars(dt.as_str());
                                append_chars(out, d.as_slice());
                                out.push('>');
                                assert(out@ =~= o + term_text(self@));
                            }
                        },
                        None => {
                            assert(out@ =~= o + term_text(self@));
                        },
                    },
                }
            },
        }
    }

    /// The N-Quads form of this term (no surrounding spaces).
    pub fn to_nquads(&self) -> (r: String)
        ensures
            r@ == term_text(self@),
    {
        let mut out: Vec<char> = Vec::new();
        self.write_nquads(&mut out);
        assert(out@ =~= term_text(self@));
        text_string(out.as_slice())
    }
}

impl Quad {
    /// Appends the canonical N-Quads line of the quad to out.
    fn write_nquads(&self, out: &mut Vec<char>)
        ensures
            final(out)@ == old(out)@ + quad_text(self@),
    {
        let ghost o = out@;
        self.subject.write_nquads(out);
        out.push(' ');
        self.predicate.write_nquads(out);
        out.push(' ');
        self.object.write_nquads(out);
        match &self.graph_name {
            Term::DefaultGraph => {},
            other => {
                out.push(' ');
                other.write_nquads(out);
            },
        }
        out.push(' ');
        out.push('.');
        out.push('\n');
        assert(out@ =~= o + quad_text(self@));
    }

    /// The canonical N-Quads line of this quad, ending with " .\n".
    pub fn to_nquads(&self) -> (r: String)
        ensures
            r@ == quad_text(self@),
    {
        let mut out: Vec<char> = Vec::new();
        self.write_nquads(&mut out);
        assert(out@ =~= quad_text(self@));
        text_string(out.as_slice())
    }
}

} // verus!

verus! {

// ---------------------------------------------------------------------------
// N-Quads parser: the grammar as spec functions over the characters of a line
// ---------------------------------------------------------------------------

/// std's char::is_whitespace: whether c has the Unicode White_Space property,
/// which holds of U+0009 to U+000D, U+0020, U+0085, U+00A0, U+1680, U+2000 to
/// U+200A, U+2028, U+2029, U+202F, U+205F and U+3000.
pub open spec fn unicode_white_space(c: char) -> bool {
    let n = c as int;
    ||| 9 <= n <= 13
    ||| n == 0x20
    ||| n == 0x85
    ||| n == 0xA0
    ||| n == 0x1680
    ||| 0x2000 <= n <= 0x200A
    ||| n == 0x2028
    ||| n == 0x2029
    ||| n == 0x202F
    ||| n == 0x205F
    ||| n == 0x3000
}

/// char::is_whitespace. Trusted: the result is the White_Space property as
/// listed above (the Unicode table that std's char::is_whitespace consults).
#[verifier::external_body]
fn is_whitespace(c: char) -> (b: bool)
    ensures
        b == unicode_white_space(c),
{
    c.is_whitespace()
}

/// ASCII whitespace as char::is_ascii_whitespace documents it: space, tab,
/// line feed, form feed and carriage return.
pub open spec fn ascii_ws(c: char) -> bool {
    c == ' ' || c == '\t' || c == '\n' || c == '\x0C' || c == '\r'
}

/// The first position at or after p not holding a space or a tab.
pub open spec fn skip_ws_spec(l: Seq<char>, p: int) -> int
    decreases l.len() - p,
{
    if 0 <= p < l.len() && (l[p] == ' ' || l[p] == '\t') { skip_ws_spec(l, p + 1) } else { p }
}

/// Skipping spaces and tabs never moves backwards.
pub proof fn lemma_skip_ws_ge(l: Seq<char>, p: int)
    ensures
        skip_ws_spec(l, p) >= p,
        p >= 0 ==> skip_ws_spec(l, p) <= l.len() || skip_ws_spec(l, p) == p,
    decreases l.len() - p,
{
    if 0 <= p < l.len() && (l[p] == ' ' || l[p] == '\t') {
        lemma_skip_ws_ge(l, p + 1);
    }
}

/// The first position at or after p not holding Unicode whitespace.
pub open spec fn skip_unicode_ws(l: Seq<char>, p: int) -> int
    decreases l.len() - p,
{
    if 0 <= p < l.len() && unicode_white_space(l[p]) { skip_unicode_ws(l, p + 1) } else { p }
}

/// One past the last position before e not holding Unicode whitespace.
pub open spec fn trim_end_pos(l: Seq<char>, e: int) -> int
    decreases e,
{
    if 0 < e <= l.len() && unicode_white_space(l[e - 1]) { trim_end_pos(l, e - 1) } else { e }
}

/// str::trim: l without its leading and trailing Unicode whitespace.
pub open spec fn trim_spec(l: Seq<char>) -> Seq<char> {
    let b = skip_unicode_ws(l, 0);
    if b >= l.len() { Seq::empty() } else { l.subrange(b, trim_end_pos(l, l.len() as int)) }
}

/// The first position at or after p holding c, or l.len().
pub open spec fn find_char(l: Seq<char>, p: int, c: char) -> int
    decreases l.len() - p,
{
    if p < 0 || p >= l.len() { l.len() as int } else if l[p] == c { p } else { find_char(l, p + 1, c) }
}

/// The end of a blank-node label or language tag starting at p: the first
/// ASCII whitespace, '.' or ',' at or after p, or l.len().
pub open spec fn label_end(l: Seq<char>, p: int) -> int
    decreases l.len() - p,
{
    if p < 0 || p >= l.len() { l.len() as int }
    else if ascii_ws(l[p]) || l[p] == '.' || l[p] == ',' { p }
    else { label_end(l, p + 1) }
}

/// The value of a hexadecimal digit, if c is one.
pub open spec fn hex_digit_value(c: char) -> Option<int> {
    if '0' <= c <= '9' { Some(c as int - 48) }
    else if 'a' <= c <= 'f' { Some(c as int - 87) }
    else if 'A' <= c <= 'F' { Some(c as int - 55) }
    else { None }
}

/// The value of a nonempty string of hexadecimal digits.
pub open spec fn hex_digits_value(s: Seq<char>) -> Option<int>
    decreases s.len(),
{
    if s.len() == 0 {
        None
    } else {
        match hex_digit_value(s.last()) {
            None => None,
            Some(d) => if s.len() == 1 { Some(d) } else {
                match hex_digits_value(s.drop_last()) {
                    None => None,
                    Some(v) => Some(16 * v + d),
                }
            },
        }
    }
}

/// u32::from_str_radix(s, 16) for strings of at most 8 characters: an optional
/// '+' and at least one hexadecimal digit.
pub open spec fn hex_value(s: Seq<char>) -> Option<int> {
    if s.len() > 0 && s[0] == '+' { hex_digits_value(s.drop_first()) } else { hex_digits_value(s) }
}

/// char::from_u32(cp).unwrap_or(U+FFFD).
pub open spec fn char_or_replacement(cp: int) -> char {
    if (0 <= cp < 0xD800) || (0xE000 <= cp <= 0x10FFFF) { cp as char } else { '\u{FFFD}' }
}

/// The n characters after position p, each missing one read as '?'.
pub open spec fn hex_group(l: Seq<char>, p: int, n: int) -> Seq<char> {
    Seq::new(n as nat, |k: int| if 0 <= p + k < l.len() { l[p + k] } else { '?' })
}

/// How many of the n characters after position p exist.
pub open spec fn group_len(l: Seq<char>, p: int, n: int) -> int {
    if p + n <= l.len() { n } else if p <= l.len() { l.len() - p } else { 0 }
}

/// Scans the body of a literal from position p, with `acc` decoded so far:
/// the decoded value and the position after the closing quote, or None when
/// the literal is malformed.
pub open spec fn lit_scan(l: Seq<char>, p: int, acc: Seq<char>) -> Option<(Seq<char>, int)>
    decreases l.len() - p,
{
    if p < 0 || p >= l.len() {
        None
    } else if l[p] == '\\' {
        if p + 1 >= l.len() {
            None
        } else {
            let e = l[p + 1];
            if e == 'n' { lit_scan(l, p + 2, acc.push('\n')) }
            else if e == 'r' { lit_scan(l, p + 2, acc.push('\r')) }
            else if e == 't' { lit_scan(l, p + 2, acc.push('\t')) }
            else if e == '"' { lit_scan(l, p + 2, acc.push('"')) }
            else if e == '\\' { lit_scan(l, p + 2, acc.push('\\')) }
            else if e == 'u' || e == 'U' {
                let n: int = if e == 'u' { 4 } else { 8 };
                match hex_value(hex_group(l, p + 2, n)) {
                    None => None,
                    Some(cp) => lit_scan(l, p + 2 + group_len(l, p + 2, n), acc.push(char_or_replacement(cp))),
                }
            }
            else { lit_scan(l, p + 2, acc.push('\\').push(e)) }
        }
    } else if l[p] == '"' {
        Some((acc, p + 1))
    } else {
        lit_scan(l, p + 1, acc.push(l[p]))
    }
}

/// parse_term: the term starting at position p (after spaces and tabs) and the
/// position after it, or None on a syntax error.
pub open spec fn parse_term_spec(l: Seq<char>, p: int, allow_default: bool) -> Option<(TermView, int)>
    decreases l.len() - p, 1int,
{
    let old_p = p;
    let p = skip_ws_spec(l, p);
    if p < 0 || p >= l.len() {
        if allow_default { Some((TermView::DefaultGraph, p)) } else { None }
    } else if l[p] == '<' {
        let e = find_char(l, p, '>');
        if e >= l.len() { None } else { Some((TermView::Iri(l.subrange(p + 1, e)), e + 1)) }
    } else if l[p] == '_' {
        if p + 1 < l.len() && l[p + 1] == ':' {
            let e = label_end(l, p + 2);
            Some((TermView::Blank(l.subrange(p + 2, e)), e))
        } else {
            None
        }
    } else if l[p] == '"' {
        proof {
            lemma_skip_ws_ge(l, old_p);
        }
        parse_literal_spec(l, p)
    } else if l[p] == '.' && allow_default {
        Some((TermView::DefaultGraph, p))
    } else {
        None
    }
}

/// parse_literal: the literal whose opening quote is at position p.
pub open spec fn parse_literal_spec(l: Seq<char>, p: int) -> Option<(TermView, int)>
    decreases l.len() - p, 0int,
{
    if p < 0 || p >= l.len() {
        None
    } else {
        match lit_scan(l, p + 1, Seq::empty()) {
            None => None,
            Some((value, q)) => {
                if q <= p {
                    None
                } else if q + 1 < l.len() && l[q] == '^' && l[q + 1] == '^' {
                    match parse_term_spec(l, q + 2, false) {
                        Some((TermView::Iri(dt), e)) => Some((TermView::Literal(value, Some(dt), None), e)),
                        _ => None,
                    }
                } else if q < l.len() && l[q] == '@' {
                    let e = label_end(l, q + 1);
                    Some((TermView::Literal(value, None, Some(l.subrange(q + 1, e))), e))
                } else {
                    Some((TermView::Literal(value, None, None), q))
                }
            },
        }
    }
}

/// parse_quad_line on a trimmed line: three terms, an optional graph name, then
/// '.' (what follows the '.' is ignored).
pub open spec fn parse_quad_spec(l: Seq<char>) -> Option<QuadView> {
    match parse_term_spec(l, 0, false) {
        None => None,
        Some((s, p1)) => match parse_term_spec(l, skip_ws_spec(l, p1), false) {
            None => None,
            Some((pr, p2)) => match parse_term_spec(l, skip_ws_spec(l, p2), false) {
                None => None,
                Some((o, p3)) => {
                    let p3 = skip_ws_spec(l, p3);
                    let g: Option<(TermView, int)> = if 0 <= p3 < l.len() && l[p3] == '.' {
                        Some((TermView::DefaultGraph, p3))
                    } else {
                        match parse_term_spec(l, p3, true) {
                            None => None,
                            Some((g, p4)) => Some((g, skip_ws_spec(l, p4))),
                        }
                    };
                    match g {
                        None => None,
                        Some((g, p4)) => {
                            let p5 = skip_unicode_ws(l, p4);
                            if 0 <= p5 < l.len() && l[p5] == '.' {
                                Some(QuadView { subject: s, predicate: pr, object: o, graph_name: g })
                            } else {
                                None
                            }
                        },
                    }
                },
            },
        },
    }
}

/// The lines of s: the pieces between line feeds.
pub open spec fn split_lines(s: Seq<char>) -> Seq<Seq<char>>
    decreases s.len(),
{
    if s.len() == 0 {
        seq![Seq::empty()]
    } else {
        let prev = split_lines(s.drop_last());
        if s.last() == '\n' {
            prev.push(Seq::empty())
        } else {
            prev.update(prev.len() - 1, prev.last().push(s.last()))
        }
    }
}

/// Whether a trimmed line is skipped: empty or a comment.
pub open spec fn skipped_line(t: Seq<char>) -> bool {
    t.len() == 0 || t[0] == '#'
}

/// parse_nquads over the first n lines: the quads of the lines that are
/// neither empty nor comments, or None when one of them does not parse.
pub open spec fn parse_lines_spec(lines: Seq<Seq<char>>, n: int) -> Option<Seq<QuadView>>
    decreases n,
{
    if n <= 0 {
        Some(Seq::empty())
    } else {
        match parse_lines_spec(lines, n - 1) {
            None => None,
            Some(qs) => {
                let t = trim_spec(lines[n - 1]);
                if skipped_line(t) {
                    Some(qs)
                } else {
                    match parse_quad_spec(t) {
                        None => None,
                        Some(q) => Some(qs.push(q)),
                    }
                }
            },
        }
    }
}

/// parse_nquads on the whole input.
pub open spec fn parse_nquads_spec(input: Seq<char>) -> Option<Seq<QuadView>> {
    parse_lines_spec(split_lines(input), split_lines(input).len() as int)
}

} // verus!

verus! {

// ---------------------------------------------------------------------------
// N-Quads parser: executable
// ---------------------------------------------------------------------------

/// std's char::from_u32: Some(c) exactly for the values of chars (not a
/// surrogate, at most 0x10FFFF), None otherwise.
pub assume_specification[ core::char::from_u32 ](i: u32) -> (r: Option<char>)
    ensures
        ((i as int) < 0xD800 || (0xE000 <= (i as int) <= 0x10FFFF)) ==> r == Some(i as char),
        !((i as int) < 0xD800 || (0xE000 <= (i as int) <= 0x10FFFF)) ==> r is None,
;

/// The Debug form of a character, for error messages (`format!("{:?}", c)`).
#[verifier::external_body]
fn debug_char(c: char) -> String {
    format!("{:?}", c)
}

/// The Debug form of a string, for error messages (`format!("{:?}", s)`).
#[verifier::external_body]
fn debug_text(s: &str) -> String {
    format!("{:?}", s)
}

/// The String with the characters of a literal.
fn lit(s: &str) -> (r: String)
    ensures
        r@ == s@,
{
    text_string(text_chars(s).as_slice())
}

/// The String a + b.
fn concat2(a: &String, b: &String) -> (r: String)
    ensures
        r@ == a@ + b@,
{
    let mut v = text_chars(a.as_str());
    let w = text_chars(b.as_str());
    append_chars(&mut v, w.as_slice());
    text_string(v.as_slice())
}

/// The characters l[a..b].
fn sub_chars(l: &[char], a: usize, b: usize) -> (v: Vec<char>)
    requires
        a <= b <= l@.len(),
    ensures
        v@ == l@.subrange(a as int, b as int),
{
    let mut v: Vec<char> = Vec::new();
    let mut i = a;
    while i < b
        invariant
            a <= i <= b,
            b <= l@.len(),
            v@ == l@.subrange(a as int, i as int),
        decreases b - i,
    {
        v.push(l[i]);
        assert(l@.subrange(a as int, i + 1) =~= l@.subrange(a as int, i as int).push(l@[i as int]));
        i += 1;
    }
    v
}

fn skip_ws(l: &[char], p: usize) -> (r: usize)
    requires
        p <= l@.len(),
    ensures
        r == skip_ws_spec(l@, p as int),
        p <= r <= l@.len(),
{
    let mut i = p;
    while i < l.len() && (l[i] == ' ' || l[i] == '\t')
        invariant
            p <= i <= l@.len(),
            skip_ws_spec(l@, p as int) == skip_ws_spec(l@, i as int),
        decreases l@.len() - i,
    {
        i += 1;
    }
    i
}

fn skip_unicode(l: &[char], p: usize) -> (r: usize)
    requires
        p <= l@.len(),
    ensures
        r == skip_unicode_ws(l@, p as int),
        p <= r <= l@.len(),
{
    let mut i = p;
    while i < l.len() && is_whitespace(l[i])
        invariant
            p <= i <= l@.len(),
            skip_unicode_ws(l@, p as int) == skip_unicode_ws(l@, i as int),
        decreases l@.len() - i,
    {
        i += 1;
    }
    i
}

/// str::trim on a line.
fn trim_line(l: &[char]) -> (r: Vec<char>)
    ensures
        r@ == trim_spec(l@),
{
    let b = skip_unicode(l, 0);
    if b >= l.len() {
        return Vec::new();
    }
    let mut e = l.len();
    while e > 0 && is_whitespace(l[e - 1])
        invariant
            0 <= e <= l@.len(),
            trim_end_pos(l@, l@.len() as int) == trim_end_pos(l@, e as int),
        decreases e,
    {
        e -= 1;
    }
    proof {
        lemma_trim_bounds(l@);
    }
    sub_chars(l, b, e)
}

/// When some character is not whitespace, the trimmed range is nonempty and in bounds.
proof fn lemma_trim_bounds(l: Seq<char>)
    requires
        skip_unicode_ws(l, 0) < l.len(),
    ensures
        skip_unicode_ws(l, 0) < trim_end_pos(l, l.len() as int) <= l.len(),
{
    lemma_skip_unicode_facts(l, 0);
    lemma_trim_end_facts(l, l.len() as int, skip_unicode_ws(l, 0));
}

proof fn lemma_skip_unicode_facts(l: Seq<char>, p: int)
    requires
        0 <= p <= l.len(),
    ensures
        p <= skip_unicode_ws(l, p) <= l.len(),
        skip_unicode_ws(l, p) < l.len() ==> !unicode_white_space(l[skip_unicode_ws(l, p)]),
    decreases l.len() - p,
{
    if p < l.len() && unicode_white_space(l[p]) {
        lemma_skip_unicode_facts(l, p + 1);
    }
}

proof fn lemma_trim_end_facts(l: Seq<char>, e: int, b: int)
    requires
        0 <= b < e <= l.len(),
        !unicode_white_space(l[b]),
    ensures
        b < trim_end_pos(l, e) <= e,
    decreases e,
{
    if unicode_white_space(l[e - 1]) {
        lemma_trim_end_facts(l, e - 1, b);
    }
}

fn find_char_exec(l: &[char], p: usize, c: char) -> (r: usize)
    requires
        p <= l@.len(),
    ensures
        r == find_char(l@, p as int, c),
        p <= r <= l@.len(),
        r < l@.len() ==> l@[r as int] == c,
{
    let mut i = p;
    while i < l.len() && l[i] != c
        invariant
            p <= i <= l@.len(),
            find_char(l@, p as int, c) == find_char(l@, i as int, c),
        decreases l@.len() - i,
    {
        i += 1;
    }
    i
}

fn label_end_exec(l: &[char], p: usize) -> (r: usize)
    requires
        p <= l@.len(),
    ensures
        r == label_end(l@, p as int),
        p <= r <= l@.len(),
{
    let mut i = p;
    while i < l.len() && !(l[i] == ' ' || l[i] == '\t' || l[i] == '\n' || l[i] == '\x0C' || l[i] == '\r'
        || l[i] == '.' || l[i] == ',')
        invariant
            p <= i <= l@.len(),
            label_end(l@, p as int) == label_end(l@, i as int),
        decreases l@.len() - i,
    {
        i += 1;
    }
    i
}

fn hex_digit_exec(c: char) -> (r: Option<u64>)
    ensures
        match hex_digit_value(c) {
            Some(d) => r == Some(d as u64),
            None => r is None,
        },
{
    if '0' <= c && c <= '9' {
        Some((c as u64) - 48)
    } else if 'a' <= c && c <= 'f' {
        Some((c as u64) - 87)
    } else if 'A' <= c && c <= 'F' {
        Some((c as u64) - 55)
    } else {
        None
    }
}

/// u32::from_str_radix(g, 16) for a group of at most 8 characters.
fn hex_value_exec(g: &[char]) -> (r: Option<u32>)
    requires
        g@.len() <= 8,
    ensures
        match hex_value(g@) {
            Some(v) => r == Some(v as u32) && 0 <= v < 0x1_0000_0000,
            None => r is None,
        },
{
    let start: usize = if g.len() > 0 && g[0] == '+' { 1 } else { 0 };
    let ghost digits = if g@.len() > 0 && g@[0] == '+' { g@.drop_first() } else { g@ };
    assert(digits =~= g@.subrange(start as int, g@.len() as int));
    assert(hex_value(g@) == hex_digits_value(digits));
    if start >= g.len() {
        return None;
    }
    let mut v: u64 = 0;
    let mut i = start;
    while i < g.len()
        invariant
            start < g@.len() <= 8,
            start <= i <= g@.len(),
            digits == g@.subrange(start as int, g@.len() as int),
            hex_value(g@) == hex_digits_value(digits),
            i > start ==> hex_digits_value(g@.subrange(start as int, i as int)) == Some(v as int),
            v < pow16(i - start),
        decreases g@.len() - i,
    {
        match hex_digit_exec(g[i]) {
            None => {
                proof {
                    let s = g@.subrange(start as int, g@.len() as int);
                    assert(s[i - start] == g@[i as int]);
                    lemma_hex_digits_bad(s, i - start);
                }
                return None;
            },
            Some(d) => {
                proof {
                    let pre = g@.subrange(start as int, i + 1);
                    assert(pre.drop_last() =~= g@.subrange(start as int, i as int));
                    assert(pre.last() == g@[i as int]);
                    lemma_pow16_step(i - start);
                    lemma_pow16_mono(i - start, 7);
                    assert(pow16(7) == 0x1000_0000) by {
                        reveal_with_fuel(pow16, 8);
                    }
                }
                v = 16 * v + d;
                i += 1;
            },
        }
    }
    proof {
        lemma_pow16_step(0);
        assert(pow16(8) == 0x1_0000_0000) by {
            reveal_with_fuel(pow16, 9);
        }
        lemma_pow16_mono(i - start, 8);
    }
    Some(v as u32)
}

/// 16^n.
pub open spec fn pow16(n: int) -> int
    decreases n,
{
    if n <= 0 { 1 } else { 16 * pow16(n - 1) }
}

proof fn lemma_pow16_step(n: int)
    requires
        n >= 0,
    ensures
        pow16(n + 1) == 16 * pow16(n),
        pow16(n) >= 1,
    decreases n,
{
    if n > 0 {
        lemma_pow16_step(n - 1);
    }
}

proof fn lemma_pow16_mono(a: int, b: int)
    requires
        0 <= a <= b,
    ensures
        pow16(a) <= pow16(b),
    decreases b - a,
{
    if a < b {
        lemma_pow16_mono(a, b - 1);
        lemma_pow16_step(b - 1);
    }
}

/// A non-digit at position k makes every longer prefix, and so the whole
/// string, fail to parse.
proof fn lemma_hex_digits_bad(s: Seq<char>, k: int)
    requires
        0 <= k < s.len(),
        hex_digit_value(s[k]) is None,
    ensures
        hex_digits_value(s) is None,
    decreases s.len(),
{
    if k < s.len() - 1 {
        lemma_hex_digits_bad(s.drop_last(), k);
    }
}

} // verus!

verus! {

/// The n characters after position p, each missing one read as '?'.
fn hex_group_exec(l: &[char], p: usize, n: usize) -> (g: Vec<char>)
    requires
        n <= 8,
        p <= l@.len(),
    ensures
        g@ == hex_group(l@, p as int, n as int),
{
    let mut g: Vec<char> = Vec::new();
    let mut k: usize = 0;
    while k < n
        invariant
            0 <= k <= n <= 8,
            p <= l@.len(),
            g@ == hex_group(l@, p as int, n as int).subrange(0, k as int),
        decreases n - k,
    {
        if k < l.len() - p {
            g.push(l[p + k]);
        } else {
            g.push('?');
        }
        assert(g@ =~= hex_group(l@, p as int, n as int).subrange(0, k + 1));
        k += 1;
    }
    assert(g@ =~= hex_group(l@, p as int, n as int));
    g
}

/// Scans the body of a literal starting at position p (after the opening
/// quote): the decoded value and the position after the closing quote.
fn lit_scan_exec(l: &[char], p: usize) -> (r: Result<(Vec<char>, usize), String>)
    requires
        p <= l@.len(),
    ensures
        match lit_scan(l@, p as int, Seq::empty()) {
            None => r is Err,
            Some((v, q)) => r matches Ok((vv, qq)) && vv@ == v && qq == q,
        },
{
    let mut acc: Vec<char> = Vec::new();
    let mut i = p;
    loop
        invariant
            p <= i <= l@.len(),
            lit_scan(l@, p as int, Seq::empty()) == lit_scan(l@, i as int, acc@),
        decreases l@.len() - i,
    {
        if i >= l.len() {
            return Err(lit("Unclosed literal string"));
        }
        let c = l[i];
        if c == '\\' {
            if i + 1 >= l.len() {
                return Err(lit("Trailing backslash in literal"));
            }
            let e = l[i + 1];
            if e == 'n' {
                acc.push('\n');
                i += 2;
            } else if e == 'r' {
                acc.push('\r');
                i += 2;
            } else if e == 't' {
                acc.push('\t');
                i += 2;
            } else if e == '"' {
                acc.push('"');
                i += 2;
            } else if e == '\\' {
                acc.push('\\');
                i += 2;
            } else if e == 'u' || e == 'U' {
                let n: usize = if e == 'u' { 4 } else { 8 };
                let g = hex_group_exec(l, i + 2, n);
                match hex_value_exec(g.as_slice()) {
                    None => {
                        let mut msg = lit(if e == 'u' { "Bad \\u escape: " } else { "Bad \\U escape: " });
                        let gs = text_string(g.as_slice());
                        msg = concat2(&msg, &gs);
                        return Err(msg);
                    },
                    Some(cp) => {
                        let ch = match core::char::from_u32(cp) {
                            Some(ch) => ch,
                            None => '\u{FFFD}',
                        };
                        acc.push(ch);
                        let avail = l.len() - (i + 2);
                        let used = if n <= avail { n } else { avail };
                        i = i + 2 + used;
                    },
                }
            } else {
                acc.push('\\');
                acc.push(e);
                i += 2;
            }
        } else if c == '"' {
            return Ok((acc, i + 1));
        } else {
            acc.push(c);
            i += 1;
        }
    }
}

/// Parses the term starting at position p (after spaces and tabs): the term
/// and the position after it.
fn parse_term(l: &[char], p: usize, allow_default: bool) -> (r: Result<(Term, usize), String>)
    requires
        p <= l@.len(),
    ensures
        match parse_term_spec(l@, p as int, allow_default) {
            None => r is Err,
            Some((t, q)) => r matches Ok((tt, qq)) && tt@ == t && qq == q && qq <= l@.len(),
        },
    decreases l@.len() - p, 1int,
{
    let p0 = p;
    let p = skip_ws(l, p);
    if p >= l.len() {
        if allow_default {
            return Ok((Term::DefaultGraph, p));
        }
        return Err(lit("Unexpected end of line"));
    }
    let first = l[p];
    if first == '<' {
        let e = find_char_exec(l, p, '>');
        if e >= l.len() {
            return Err(lit("Unclosed IRI '<'"));
        }
        let iri = sub_chars(l, p + 1, e);
        Ok((Term::Iri(text_string(iri.as_slice())), e + 1))
    } else if first == '_' {
        if !(p + 1 < l.len() && l[p + 1] == ':') {
            return Err(lit("Expected '_:' for blank node"));
        }
        let e = label_end_exec(l, p + 2);
        let label = sub_chars(l, p + 2, e);
        Ok((Term::Blank(text_string(label.as_slice())), e))
    } else if first == '"' {
        proof {
            lemma_skip_ws_ge(l@, p0 as int);
        }
        parse_literal(l, p)
    } else if first == '.' && allow_default {
        Ok((Term::DefaultGraph, p))
    } else {
        let m = lit("Unexpected character ");
        let d = debug_char(first);
        Err(concat2(&m, &d))
    }
}

/// Parses the literal whose opening quote is at position p.
fn parse_literal(l: &[char], p: usize) -> (r: Result<(Term, usize), String>)
    requires
        p < l@.len(),
    ensures
        match parse_literal_spec(l@, p as int) {
            None => r is Err,
            Some((t, q)) => r matches Ok((tt, qq)) && tt@ == t && qq == q && qq <= l@.len(),
        },
    decreases l@.len() - p, 0int,
{
    let n = l.len();
    let (value, q) = match lit_scan_exec(l, p + 1) {
        Err(e) => {
            return Err(e);
        },
        Ok(x) => x,
    };
    proof {
        lemma_lit_scan_bounds(l@, p + 1, Seq::empty());
    }
    let value_s = text_string(value.as_slice());
    if q < n && n - q > 1 && l[q] == '^' && l[q + 1] == '^' {
        match parse_term(l, q + 2, false) {
            Ok((Term::Iri(dt), e)) => Ok((Term::Literal { value: value_s, datatype: Some(dt), language: None }, e)),
            _ => Err(lit("Expected IRI after ^^")),
        }
    } else if q < l.len() && l[q] == '@' {
        let e = label_end_exec(l, q + 1);
        let lang = sub_chars(l, q + 1, e);
        Ok((Term::Literal { value: value_s, datatype: None, language: Some(text_string(lang.as_slice())) }, e))
    } else {
        Ok((Term::Literal { value: value_s, datatype: None, language: None }, q))
    }
}

/// A successful scan ends after the position it started from, within the line.
proof fn lemma_lit_scan_bounds(l: Seq<char>, p: int, acc: Seq<char>)
    requires
        0 <= p,
    ensures
        lit_scan(l, p, acc) matches Some((v, q)) ==> p < q <= l.len(),
    decreases l.len() - p,
{
    if 0 <= p < l.len() {
        if l[p] == '\\' {
            if p + 1 < l.len() {
                let e = l[p + 1];
                if e == 'u' || e == 'U' {
                    let n: int = if e == 'u' { 4 } else { 8 };
                    match hex_value(hex_group(l, p + 2, n)) {
                        None => {},
                        Some(cp) => lemma_lit_scan_bounds(l, p + 2 + group_len(l, p + 2, n), acc.push(char_or_replacement(cp))),
                    }
                } else if e == 'n' { lemma_lit_scan_bounds(l, p + 2, acc.push('\n')) }
                else if e == 'r' { lemma_lit_scan_bounds(l, p + 2, acc.push('\r')) }
                else if e == 't' { lemma_lit_scan_bounds(l, p + 2, acc.push('\t')) }
                else if e == '"' { lemma_lit_scan_bounds(l, p + 2, acc.push('"')) }
                else if e == '\\' { lemma_lit_scan_bounds(l, p + 2, acc.push('\\')) }
                else { lemma_lit_scan_bounds(l, p + 2, acc.push('\\').push(e)) }
            }
        } else if l[p] != '"' {
            lemma_lit_scan_bounds(l, p + 1, acc.push(l[p]));
        }
    }
}

/// Parses one trimmed, nonempty line into a quad.
fn parse_quad_line(l: &[char]) -> (r: Result<Quad, String>)
    ensures
        match parse_quad_spec(l@) {
            None => r is Err,
            Some(q) => r matches Ok(qq) && qq@ == q,
        },
{
    let (subject, p1) = match parse_term(l, 0, false) {
        Err(e) => { return Err(e); },
        Ok(x) => x,
    };
    let p1 = skip_ws(l, p1);
    let (predicate, p2) = match parse_term(l, p1, false) {
        Err(e) => { return Err(e); },
        Ok(x) => x,
    };
    let p2 = skip_ws(l, p2);
    let (object, p3) = match parse_term(l, p2, false) {
        Err(e) => { return Err(e); },
        Ok(x) => x,
    };
    let p3 = skip_ws(l, p3);
    let (graph_name, p4) = if p3 < l.len() && l[p3] == '.' {
        (Term::DefaultGraph, p3)
    } else {
        match parse_term(l, p3, true) {
            Err(e) => { return Err(e); },
            Ok((g, p)) => (g, skip_ws(l, p)),
        }
    };
    let p5 = skip_unicode(l, p4);
    if !(p5 < l.len() && l[p5] == '.') {
        let m = lit("Expected '.' but found ");
        let rest = sub_chars(l, p5, l.len());
        let d = debug_text(text_string(rest.as_slice()).as_str());
        return Err(concat2(&m, &d));
    }
    Ok(Quad { subject, predicate, object, graph_name })
}

/// The lines of `s`: the pieces between line feeds.
fn split_lines_exec(s: &[char]) -> (lines: Vec<Vec<char>>)
    ensures
        lines@.len() == split_lines(s@).len(),
        forall|k: int| 0 <= k < lines@.len() ==> #[trigger] lines@[k]@ == split_lines(s@)[k],
{
    let mut lines: Vec<Vec<char>> = Vec::new();
    let mut cur: Vec<char> = Vec::new();
    let mut i: usize = 0;
    proof {
        assert(s@.subrange(0, 0) =~= Seq::<char>::empty());
    }
    while i < s.len()
        invariant
            0 <= i <= s@.len(),
            lines@.len() + 1 == split_lines(s@.subrange(0, i as int)).len(),
            forall|k: int| 0 <= k < lines@.len() ==> #[trigger] lines@[k]@ == split_lines(s@.subrange(0, i as int))[k],
            cur@ == split_lines(s@.subrange(0, i as int)).last(),
        decreases s@.len() - i,
    {
        let ghost pre = s@.subrange(0, i as int);
        let ghost nxt = s@.subrange(0, i + 1);
        assert(nxt.drop_last() =~= pre);
        assert(nxt.last() == s@[i as int]);
        if s[i] == '\n' {
            lines.push(cur);
            cur = Vec::new();
        } else {
            cur.push(s[i]);
        }
        i += 1;
    }
    lines.push(cur);
    assert(s@.subrange(0, s@.len() as int) =~= s@);
    lines
}

/// Parses N-Quads text: every line that is neither empty nor a comment
/// (after trimming) must hold one quad. The error names the first line that
/// does not parse.
pub fn parse_nquads(input: &str) -> (r: Result<Vec<Quad>, String>)
    ensures
        match parse_nquads_spec(input@) {
            None => r is Err,
            Some(qs) => r matches Ok(v) && v@.len() == qs.len()
                && forall|k: int| 0 <= k < qs.len() ==> #[trigger] v@[k]@ == qs[k],
        },
{
    let chars = text_chars(input);
    let lines = split_lines_exec(chars.as_slice());
    let ghost ls = split_lines(input@);
    let mut quads: Vec<Quad> = Vec::new();
    let mut n: usize = 0;
    while n < lines.len()
        invariant
            0 <= n <= lines@.len(),
            lines@.len() == ls.len(),
            ls == split_lines(input@),
            forall|k: int| 0 <= k < lines@.len() ==> #[trigger] lines@[k]@ == ls[k],
            parse_lines_spec(ls, n as int) matches Some(qs) && quads@.len() == qs.len()
                && forall|k: int| 0 <= k < qs.len() ==> #[trigger] quads@[k]@ == qs[k],
        decreases lines@.len() - n,
    {
        let t = trim_line(lines[n].as_slice());
        assert(lines@[n as int]@ == ls[n as int]);
        if t.len() == 0 || t[0] == '#' {
            n += 1;
        } else {
            match parse_quad_line(t.as_slice()) {
                Ok(q) => {
                    quads.push(q);
                    n += 1;
                },
                Err(e) => {
                    proof {
                        lemma_parse_lines_none(ls, n as int + 1, ls.len() as int);
                    }
                    let m = lit("Line ");
                    let num = text_string(decimal_chars((n + 1) as u64).as_slice());
                    let m = concat2(&m, &num);
                    let m = concat2(&m, &lit(": "));
                    let m = concat2(&m, &e);
                    let m = concat2(&m, &lit(" \u{2014} "));
                    let d = debug_text(text_string(t.as_slice()).as_str());
                    return Err(concat2(&m, &d));
                },
            }
        }
    }
    Ok(quads)
}

/// Once a prefix of the lines fails to parse, every longer prefix fails.
proof fn lemma_parse_lines_none(ls: Seq<Seq<char>>, n: int, m: int)
    requires
        0 <= n <= m,
        parse_lines_spec(ls, n) is None,
    ensures
        parse_lines_spec(ls, m) is None,
    decreases m - n,
{
    if n < m {
        lemma_parse_lines_none(ls, n, m - 1);
    }
}

/// The decimal digits of n.
pub open spec fn decimal_spec(n: nat) -> Seq<char>
    decreases n,
{
    if n < 10 { seq![(48 + n) as char] } else { decimal_spec(n / 10).push((48 + n % 10) as char) }
}

/// The decimal digits of n.
fn decimal_chars(n: u64) -> (r: Vec<char>)
    ensures
        r@ == decimal_spec(n as nat),
    decreases n,
{
    if n < 10 {
        let mut v: Vec<char> = Vec::new();
        v.push(((48 + n) as u8) as char);
        v
    } else {
        let mut v = decimal_chars(n / 10);
        v.push(((48 + n % 10) as u8) as char);
        v
    }
}

} // verus!

verus! {

// ---------------------------------------------------------------------------
// Identifier issuer (RDFC-1.0, Section 4.5)
// ---------------------------------------------------------------------------

/// The characters of each string.
pub open spec fn views(v: Seq<String>) -> Seq<Seq<char>> {
    Seq::new(v.len(), |i: int| v[i]@)
}

/// Issues identifiers prefix0, prefix1, ... to blank nodes, each one once, in
/// the order in which they are first asked for.
#[derive(Debug, Clone)]
pub struct IdentifierIssuer {
    /// For example "c14n" or "b".
    pub prefix: String,
    /// The number of identifiers issued so far.
    pub counter: u64,
    /// Each existing identifier with the identifier issued for it, in order of issue.
    pub issued: Vec<(String, String)>,
    /// The existing identifiers in order of issue.
    pub order: Vec<String>,
}

impl IdentifierIssuer {
    /// The existing identifiers, in order of issue.
    pub open spec fn ids(&self) -> Seq<Seq<char>> {
        views(self.order@)
    }

    /// The k-th identifier issued: the prefix and k in decimal.
    pub open spec fn issued_name(&self, k: int) -> Seq<char> {
        self.prefix@ + decimal_spec(k as nat)
    }

    /// The issuer's invariant: `issued` and `order` list the same identifiers
    /// once each, the k-th of them mapped to the k-th issued name.
    pub open spec fn wf(&self) -> bool {
        &&& self.issued@.len() == self.order@.len()
        &&& self.order@.len() == self.counter
        &&& forall|k: int| 0 <= k < self.order@.len() ==> (#[trigger] self.issued@[k]).0@ == self.order@[k]@
            && self.issued@[k].1@ == self.issued_name(k)
        &&& self.ids().no_duplicates()
    }

    /// A fresh issuer with the given prefix.
    pub fn new(prefix: &str) -> (r: Self)
        ensures
            r.wf(),
            r.prefix@ == prefix@,
            r.ids() == Seq::<Seq<char>>::empty(),
    {
        let r = IdentifierIssuer { prefix: prefix.to_owned(), counter: 0, issued: Vec::new(), order: Vec::new() };
        assert(r.ids() =~= Seq::<Seq<char>>::empty());
        r
    }

    /// The position of `id` among the issued identifiers.
    fn position(&self, id: &String) -> (r: Option<usize>)
        requires
            self.wf(),
        ensures
            match r {
                Some(k) => k < self.ids().len() && self.ids()[k as int] == id@,
                None => !self.ids().contains(id@),
            },
    {
        let mut k: usize = 0;
        while k < self.order.len()
            invariant
                0 <= k <= self.order@.len(),
                forall|j: int| 0 <= j < k ==> self.order@[j]@ != id@,
            decreases self.order@.len() - k,
        {
            if self.order[k] == *id {
                return Some(k);
            }
            k += 1;
        }
        proof {
            if self.ids().contains(id@) {
                let j = choose|j: int| 0 <= j < self.ids().len() && self.ids()[j] == id@;
                assert(self.order@[j]@ == id@);
            }
        }
        None
    }

    /// Issues an identifier for `existing_id`, or returns the one already
    /// issued for it. A new identifier is the prefix and the counter in decimal.
    pub fn issue(&mut self, existing_id: &str) -> (r: String)
        requires
            old(self).wf(),
            old(self).counter < u64::MAX,
        ensures
            final(self).wf(),
            final(self).prefix@ == old(self).prefix@,
            old(self).ids().contains(existing_id@) ==> final(self).ids() == old(self).ids()
                && r@ == old(self).issued_name(old(self).ids().index_of(existing_id@)),
            !old(self).ids().contains(existing_id@) ==> final(self).ids() == old(self).ids().push(existing_id@)
                && r@ == old(self).issued_name(old(self).ids().len() as int),
    {
        let key = existing_id.to_owned();
        match self.position(&key) {
            Some(k) => {
                proof {
                    self.ids().index_of_first_ensures(existing_id@);
                    assert(self.ids().no_duplicates());
                    let j = self.ids().index_of(existing_id@);
                    assert(self.ids()[j] == existing_id@);
                    assert(j == k);
                    assert(self.issued@[k as int].1@ == self.issued_name(k as int));
                }
                self.issued[k].1.clone()
            },
            None => {
                let ghost old_self = *self;
                let num = decimal_chars(self.counter);
                let mut name = text_chars(self.prefix.as_str());
                append_chars(&mut name, num.as_slice());
                let new_id = text_string(name.as_slice());
                let copy = new_id.clone();
                self.issued.push((key.clone(), copy));
                self.order.push(key);
                self.counter = self.counter + 1;
                proof {
                    assert(self.ids() =~= old_self.ids().push(existing_id@));
                    assert forall|k: int| 0 <= k < self.order@.len() implies (#[trigger] self.issued@[k]).0@
                        == self.order@[k]@ && self.issued@[k].1@ == self.issued_name(k) by {
                        if k < old_self.order@.len() {
                            assert(self.issued@[k] == old_self.issued@[k]);
                            assert(self.order@[k] == old_self.order@[k]);
                        }
                    }
                    assert forall|a: int, b: int| 0 <= a < self.ids().len() && 0 <= b < self.ids().len() && a != b
                        implies self.ids()[a] != self.ids()[b] by {
                        if a < old_self.ids().len() && b < old_self.ids().len() {
                            assert(old_self.ids()[a] != old_self.ids()[b]);
                        } else if a == old_self.ids().len() {
                            assert(old_self.ids().contains(old_self.ids()[b]));
                        } else {
                            assert(old_self.ids().contains(old_self.ids()[a]));
                        }
                    }
                }
                new_id
            },
        }
    }

    /// Whether an identifier has been issued for `id`.
    pub fn has_issued(&self, id: &str) -> (b: bool)
        requires
            self.wf(),
        ensures
            b == self.ids().contains(id@),
    {
        let key = id.to_owned();
        self.position(&key).is_some()
    }

    /// The identifier issued for `id`, if any.
    pub fn get(&self, id: &str) -> (r: Option<&str>)
        requires
            self.wf(),
        ensures
            self.ids().contains(id@) ==> (r matches Some(s) && s@ == self.issued_name(self.ids().index_of(id@))),
            !self.ids().contains(id@) ==> r is None,
    {
        let key = id.to_owned();
        match self.position(&key) {
            Some(k) => {
                proof {
                    self.ids().index_of_first_ensures(id@);
                    let j = self.ids().index_of(id@);
                    assert(j == k);
                    assert(self.issued@[k as int].1@ == self.issued_name(k as int));
                }
                Some(self.issued[k].1.as_str())
            },
            None => None,
        }
    }

    /// A copy of the issuer.
    fn duplicate(&self) -> (r: Self)
        ensures
            self.wf() ==> r.wf(),
            r.prefix@ == self.prefix@,
            r.counter == self.counter,
            r.issued@.len() == self.issued@.len(),
            forall|k: int| 0 <= k < self.issued@.len() ==> (#[trigger] r.issued@[k]).0@ == self.issued@[k].0@
                && r.issued@[k].1@ == self.issued@[k].1@,
            r.ids() == self.ids(),
    {
        let mut issued: Vec<(String, String)> = Vec::new();
        let mut order: Vec<String> = Vec::new();
        let mut k: usize = 0;
        while k < self.issued.len()
            invariant
                0 <= k <= self.issued@.len(),
                issued@.len() == k,
                forall|j: int| 0 <= j < k ==> (#[trigger] issued@[j]).0@ == self.issued@[j].0@
                    && issued@[j].1@ == self.issued@[j].1@,
            decreases self.issued@.len() - k,
        {
            let a = self.issued[k].0.clone();
            let b = self.issued[k].1.clone();
            issued.push((a, b));
            k += 1;
        }
        let mut k: usize = 0;
        while k < self.order.len()
            invariant
                0 <= k <= self.order@.len(),
                order@.len() == k,
                forall|j: int| 0 <= j < k ==> #[trigger] order@[j]@ == self.order@[j]@,
            decreases self.order@.len() - k,
        {
            order.push(self.order[k].clone());
            k += 1;
        }
        let r = IdentifierIssuer { prefix: self.prefix.clone(), counter: self.counter, issued, order };
        assert(r.ids() =~= self.ids());
        proof {
            if self.wf() {
                assert forall|k: int| 0 <= k < r.order@.len() implies (#[trigger] r.issued@[k]).0@ == r.order@[k]@
                    && r.issued@[k].1@ == r.issued_name(k) by {
                    assert(self.issued@[k].0@ == self.order@[k]@);
                }
            }
        }
        r
    }
}

} // verus!

verus! {

// ---------------------------------------------------------------------------
// SHA-256 in lower-case hexadecimal
// ---------------------------------------------------------------------------

/// SHA-256 of the UTF-8 encoding of `text`.
pub uninterp spec fn sha256_utf8(text: Seq<char>) -> Seq<u8>;

/// sha2::Sha256 over the bytes of `text`. Trusted: the digest is the named
/// SHA-256 of the text's UTF-8 encoding, 32 bytes long.
#[verifier::external_body]
fn sha256_of_text(text: &str) -> (d: Vec<u8>)
    ensures
        d@ == sha256_utf8(text@),
        d@.len() == 32,
{
    let mut h = Sha256::new();
    h.update(text.as_bytes());
    h.finalize().to_vec()
}

/// Lower-case hexadecimal digit of d < 16.
pub open spec fn hex_lower(d: int) -> char {
    if d < 10 { (48 + d) as char } else { (87 + d) as char }
}

/// Lower-case hexadecimal, two digits per byte, high digit first.
pub open spec fn hex_text(b: Seq<u8>) -> Seq<char> {
    Seq::new(2 * b.len(), |i: int| if i % 2 == 0 { hex_lower(b[i / 2] as int / 16) } else { hex_lower(b[i / 2] as int % 16) })
}

/// hex::encode. Trusted: the text is the bytes in lower-case hexadecimal,
/// two digits per byte with the high digit first (hex's HEX_CHARS_LOWER table).
#[verifier::external_body]
pub(crate) fn hex_encode(bytes: &[u8]) -> (s: String)
    ensures
        s@ == hex_text(bytes@),
{
    hex::encode(bytes)
}

/// The lower-case hexadecimal SHA-256 of text.
pub open spec fn sha256_hex_spec(text: Seq<char>) -> Seq<char> {
    hex_text(sha256_utf8(text))
}

/// SHA-256 of the UTF-8 of `text`, in lower-case hexadecimal, as a string.
pub fn sha256_hex_string(text: &str) -> (r: String)
    ensures
        r@ == sha256_hex_spec(text@),
{
    let v = sha256_hex(text_chars(text).as_slice());
    text_string(v.as_slice())
}

/// SHA-256 of the UTF-8 of `text`, in lower-case hexadecimal.
fn sha256_hex(text: &[char]) -> (r: Vec<char>)
    ensures
        r@ == sha256_hex_spec(text@),
{
    let s = text_string(text);
    let d = sha256_of_text(s.as_str());
    let h = hex_encode(d.as_slice());
    text_chars(h.as_str())
}

// ---------------------------------------------------------------------------
// Code point order and sorting
// ---------------------------------------------------------------------------

/// a < b in code point order.
pub open spec fn lex_lt(a: Seq<char>, b: Seq<char>) -> bool
    decreases a.len(),
{
    if a.len() == 0 {
        b.len() > 0
    } else if b.len() == 0 {
        false
    } else if a[0] != b[0] {
        (a[0] as u32) < (b[0] as u32)
    } else {
        lex_lt(a.drop_first(), b.drop_first())
    }
}

fn lex_lt_exec(a: &[char], b: &[char]) -> (r: bool)
    ensures
        r == lex_lt(a@, b@),
{
    let mut i: usize = 0;
    assert(a@.subrange(0, a@.len() as int) =~= a@);
    assert(b@.subrange(0, b@.len() as int) =~= b@);
    while i < a.len() && i < b.len() && a[i] == b[i]
        invariant
            0 <= i <= a@.len(),
            i <= b@.len(),
            lex_lt(a@, b@) == lex_lt(a@.subrange(i as int, a@.len() as int), b@.subrange(i as int, b@.len() as int)),
        decreases a@.len() - i,
    {
        proof {
            let sa = a@.subrange(i as int, a@.len() as int);
            let sb = b@.subrange(i as int, b@.len() as int);
            assert(sa.drop_first() =~= a@.subrange(i + 1, a@.len() as int));
            assert(sb.drop_first() =~= b@.subrange(i + 1, b@.len() as int));
        }
        i += 1;
    }
    proof {
        let sa = a@.subrange(i as int, a@.len() as int);
        let sb = b@.subrange(i as int, b@.len() as int);
        if i < a@.len() && i < b@.len() {
            assert(sa[0] == a@[i as int] && sb[0] == b@[i as int]);
        }
    }
    if i >= a.len() {
        i < b.len()
    } else if i >= b.len() {
        false
    } else {
        (a[i] as u32) < (b[i] as u32)
    }
}

/// Inserts x after the last element of s that x does not precede.
pub open spec fn insert_sorted(s: Seq<Seq<char>>, x: Seq<char>) -> Seq<Seq<char>>
    decreases s.len(),
{
    if s.len() == 0 || !lex_lt(x, s.last()) {
        s.push(x)
    } else {
        insert_sorted(s.drop_last(), x).push(s.last())
    }
}

/// s in code point order (a stable insertion sort).
pub open spec fn sort_spec(s: Seq<Seq<char>>) -> Seq<Seq<char>>
    decreases s.len(),
{
    if s.len() == 0 { s } else { insert_sorted(sort_spec(s.drop_last()), s.last()) }
}

/// The concatenation of the texts of s.
pub open spec fn concat_spec(s: Seq<Seq<char>>) -> Seq<char>
    decreases s.len(),
{
    if s.len() == 0 { Seq::empty() } else { concat_spec(s.drop_last()) + s.last() }
}

/// The views of a vector of texts.
pub open spec fn texts(v: Seq<Vec<char>>) -> Seq<Seq<char>> {
    Seq::new(v.len(), |i: int| v[i]@)
}

proof fn lemma_insert_at(s: Seq<Seq<char>>, x: Seq<char>, k: int)
    requires
        0 <= k <= s.len(),
        forall|j: int| k <= j < s.len() ==> lex_lt(x, #[trigger] s[j]),
        k == 0 || !lex_lt(x, s[k - 1]),
    ensures
        insert_sorted(s, x) == s.subrange(0, k).push(x) + s.subrange(k, s.len() as int),
    decreases s.len(),
{
    if s.len() == k {
        assert(s.subrange(0, k) =~= s);
        assert(s.subrange(k, s.len() as int) =~= Seq::<Seq<char>>::empty());
        assert(s.push(x) =~= s.subrange(0, k).push(x) + s.subrange(k, s.len() as int));
    } else {
        lemma_insert_at(s.drop_last(), x, k);
        assert(insert_sorted(s.drop_last(), x).push(s.last()) =~= s.subrange(0, k).push(x) + s.subrange(k, s.len() as int));
    }
}

/// Sorts texts in code point order.
fn sort_texts(v: Vec<Vec<char>>) -> (r: Vec<Vec<char>>)
    ensures
        texts(r@) == sort_spec(texts(v@)),
{
    let mut out: Vec<Vec<char>> = Vec::new();
    let mut i: usize = 0;
    let mut v = v;
    let n = v.len();
    let ghost v0 = texts(v@);
    let mut rest: Vec<Vec<char>> = Vec::new();
    assert(texts(v@) + texts(rest@).reverse() =~= v0);
    while v.len() > 0
        invariant
            texts(v@) + texts(rest@).reverse() == v0,
            v0.len() == n,
        decreases v@.len(),
    {
        let x = v.pop().unwrap();
        rest.push(x);
        proof {
            assert(texts(v@) + texts(rest@).reverse() =~= v0);
        }
    }
    proof {
        assert(texts(rest@).reverse() =~= v0);
    }
    while rest.len() > 0
        invariant
            i <= v0.len(),
            v0.len() == n,
            texts(rest@).len() + i == v0.len(),
            forall|j: int| 0 <= j < texts(rest@).len() ==> #[trigger] texts(rest@)[j] == v0[v0.len() - 1 - j],
            texts(out@) == sort_spec(v0.subrange(0, i as int)),
        decreases rest@.len(),
    {
        let ghost r_old = texts(rest@);
        let x = rest.pop().unwrap();
        let ghost xs = x@;
        assert(xs == r_old[r_old.len() - 1]);
        assert(texts(rest@) =~= r_old.drop_last());
        assert(xs == v0[i as int]);
        let mut k = out.len();
        while k > 0 && lex_lt_exec(x.as_slice(), out[k - 1].as_slice())
            invariant
                0 <= k <= out@.len(),
                xs == x@,
                forall|j: int| k <= j < out@.len() ==> lex_lt(xs, #[trigger] texts(out@)[j]),
            decreases k,
        {
            k -= 1;
        }
        proof {
            lemma_insert_at(texts(out@), xs, k as int);
            let pre = v0.subrange(0, i + 1);
            assert(pre.drop_last() =~= v0.subrange(0, i as int));
        }
        let ghost old_out = texts(out@);
        out.insert(k, x);
        proof {
            assert(texts(out@) =~= old_out.subrange(0, k as int).push(xs) + old_out.subrange(k as int, old_out.len() as int));
        }
        i += 1;
    }
    proof {
        assert(v0.subrange(0, v0.len() as int) =~= v0);
    }
    out
}

/// Sorts texts in code point order.
pub fn sort_texts_pub(v: Vec<Vec<char>>) -> (r: Vec<Vec<char>>)
    ensures
        texts(r@) == sort_spec(texts(v@)),
{
    sort_texts(v)
}

/// Concatenates texts.
fn concat_texts(v: &Vec<Vec<char>>) -> (r: Vec<char>)
    ensures
        r@ == concat_spec(texts(v@)),
{
    let mut out: Vec<char> = Vec::new();
    let mut i: usize = 0;
    while i < v.len()
        invariant
            0 <= i <= v@.len(),
            out@ == concat_spec(texts(v@).subrange(0, i as int)),
        decreases v@.len() - i,
    {
        append_chars(&mut out, v[i].as_slice());
        assert(texts(v@).subrange(0, i + 1).drop_last() =~= texts(v@).subrange(0, i as int));
        i += 1;
    }
    assert(texts(v@).subrange(0, v@.len() as int) =~= texts(v@));
    out
}

} // verus!

verus! {

// ---------------------------------------------------------------------------
// Blank nodes and the quads that mention them
// ---------------------------------------------------------------------------

/// Term t (0 subject, 1 predicate, 2 object, 3 graph name) of a quad.
pub open spec fn quad_term(q: QuadView, t: int) -> TermView {
    if t == 0 { q.subject } else if t == 1 { q.predicate } else if t == 2 { q.object } else { q.graph_name }
}

/// The terms of the quads, four per quad in the order subject, predicate,
/// object, graph name, each with its quad.
pub open spec fn term_pairs(qs: Seq<QuadView>) -> Seq<(TermView, QuadView)> {
    Seq::new(4 * qs.len(), |n: int| (quad_term(qs[n / 4], n % 4), qs[n / 4]))
}

/// The blank node labels among the first n terms, in order of first appearance.
pub open spec fn keys_upto(ps: Seq<(TermView, QuadView)>, n: int) -> Seq<Seq<char>>
    decreases n,
{
    if n <= 0 {
        Seq::empty()
    } else {
        let k = keys_upto(ps, n - 1);
        match ps[n - 1].0 {
            TermView::Blank(b) => if k.contains(b) { k } else { k.push(b) },
            _ => k,
        }
    }
}

/// The quads of the first n terms that are the blank node b, once per mention.
pub open spec fn mentions_upto(ps: Seq<(TermView, QuadView)>, n: int, b: Seq<char>) -> Seq<QuadView>
    decreases n,
{
    if n <= 0 {
        Seq::empty()
    } else {
        let m = mentions_upto(ps, n - 1, b);
        if ps[n - 1].0 == TermView::Blank(b) { m.push(ps[n - 1].1) } else { m }
    }
}

/// The blank node labels of a dataset, in order of first appearance.
pub open spec fn blank_keys(qs: Seq<QuadView>) -> Seq<Seq<char>> {
    keys_upto(term_pairs(qs), 4 * qs.len() as int)
}

/// The quads mentioning b, once per mention, in order.
pub open spec fn mentions(qs: Seq<QuadView>, b: Seq<char>) -> Seq<QuadView> {
    mentions_upto(term_pairs(qs), 4 * qs.len() as int, b)
}

/// The views of a vector of quads.
pub open spec fn quad_views(v: Seq<Quad>) -> Seq<QuadView> {
    Seq::new(v.len(), |i: int| v[i]@)
}

/// The labels of a blank-node index.
pub open spec fn index_keys(idx: Seq<(String, Vec<Quad>)>) -> Seq<Seq<char>> {
    Seq::new(idx.len(), |k: int| idx[k].0@)
}

/// The index of a dataset: each blank node label (in order of first appearance)
/// with the quads that mention it.
pub open spec fn index_of_dataset(idx: Seq<(String, Vec<Quad>)>, qs: Seq<QuadView>) -> bool {
    &&& index_keys(idx) == blank_keys(qs)
    &&& forall|k: int| 0 <= k < idx.len() ==> #[trigger] quad_views(idx[k].1@) == mentions(qs, idx[k].0@)
}

fn copy_term(t: &Term) -> (r: Term)
    ensures
        r@ == t@,
{
    match t {
        Term::Iri(s) => Term::Iri(s.clone()),
        Term::Blank(s) => Term::Blank(s.clone()),
        Term::Literal { value, datatype, language } => Term::Literal {
            value: value.clone(),
            datatype: match datatype { Some(d) => Some(d.clone()), None => None },
            language: match language { Some(l) => Some(l.clone()), None => None },
        },
        Term::DefaultGraph => Term::DefaultGraph,
    }
}

fn copy_quad(q: &Quad) -> (r: Quad)
    ensures
        r@ == q@,
{
    Quad {
        subject: copy_term(&q.subject),
        predicate: copy_term(&q.predicate),
        object: copy_term(&q.object),
        graph_name: copy_term(&q.graph_name),
    }
}

fn quad_term_exec(q: &Quad, t: usize) -> (r: &Term)
    requires
        t < 4,
    ensures
        r@ == quad_term(q@, t as int),
{
    if t == 0 { &q.subject } else if t == 1 { &q.predicate } else if t == 2 { &q.object } else { &q.graph_name }
}

/// The position of label b in the index.
fn find_key(idx: &Vec<(String, Vec<Quad>)>, b: &String) -> (r: Option<usize>)
    ensures
        match r {
            Some(k) => k < idx@.len() && index_keys(idx@)[k as int] == b@,
            None => !index_keys(idx@).contains(b@),
        },
{
    let mut k: usize = 0;
    while k < idx.len()
        invariant
            0 <= k <= idx@.len(),
            forall|j: int| 0 <= j < k ==> idx@[j].0@ != b@,
        decreases idx@.len() - k,
    {
        if idx[k].0 == *b {
            return Some(k);
        }
        k += 1;
    }
    proof {
        if index_keys(idx@).contains(b@) {
            let j = choose|j: int| 0 <= j < index_keys(idx@).len() && index_keys(idx@)[j] == b@;
            assert(idx@[j].0@ == b@);
        }
    }
    None
}

/// Step 2 of the canonicalization algorithm: the blank-node-to-quads index.
#[verifier::rlimit(30)]
fn build_index(quads: &[Quad]) -> (idx: Vec<(String, Vec<Quad>)>)
    requires
        4 * quads@.len() < usize::MAX,
    ensures
        index_of_dataset(idx@, quad_views(quads@)),
{
    let ghost qs = quad_views(quads@);
    let ghost ps = term_pairs(qs);
    let mut idx: Vec<(String, Vec<Quad>)> = Vec::new();
    let mut j: usize = 0;
    while j < quads.len()
        invariant
            0 <= j <= quads@.len(),
            4 * quads@.len() < usize::MAX,
            qs == quad_views(quads@),
            ps == term_pairs(qs),
            index_keys(idx@) == keys_upto(ps, 4 * j),
            forall|k: int| 0 <= k < idx@.len() ==> #[trigger] quad_views(idx@[k].1@) == mentions_upto(ps, 4 * j, idx@[k].0@),
        decreases quads@.len() - j,
    {
        let mut t: usize = 0;
        while t < 4
            invariant
                0 <= j < quads@.len(),
                4 * quads@.len() < usize::MAX,
                0 <= t <= 4,
                qs == quad_views(quads@),
                ps == term_pairs(qs),
                index_keys(idx@) == keys_upto(ps, 4 * j + t),
                forall|k: int| 0 <= k < idx@.len() ==> #[trigger] quad_views(idx@[k].1@)
                    == mentions_upto(ps, 4 * j + t, idx@[k].0@),
            decreases 4 - t,
        {
            let n: usize = 4 * j + t;
            proof {
                lemma_block_split(j as int, t as int, 4);
                assert(ps[n as int] == (quad_term(qs[j as int], t as int), qs[j as int]));
                assert(qs[j as int] == quads@[j as int]@);
            }
            let term = quad_term_exec(&quads[j], t);
            let ghost old_idx = idx@;
            match term {
                Term::Blank(b) => {
                    match find_key(&idx, b) {
                        Some(k) => {
                            let cq = copy_quad(&quads[j]);
                            let mut entry = idx.remove(k);
                            let ghost e0 = entry;
                            entry.1.push(cq);
                            let ghost e1 = entry;
                            idx.insert(k, entry);
                            proof {
                                assert(e0 == old_idx[k as int]);
                                assert(idx@ =~= old_idx.update(k as int, e1));
                                assert(e1.0 == e0.0);
                                assert(e1.1@ == e0.1@.push(cq));
                                assert(index_keys(idx@) =~= index_keys(old_idx));
                                assert forall|kk: int| 0 <= kk < idx@.len() implies #[trigger] quad_views(idx@[kk].1@)
                                    == mentions_upto(ps, n + 1, idx@[kk].0@) by {
                                    assert(term@ == TermView::Blank(b@));
                                    assert(ps[n as int].1 == cq@);
                                    if kk == k {
                                        assert(quad_views(idx@[kk].1@) =~= quad_views(old_idx[kk].1@).push(cq@));
                                        assert(old_idx[kk].0@ == b@);
                                    } else {
                                        assert(idx@[kk] == old_idx[kk]);
                                        lemma_keys_no_dup(ps, n as int);
                                        assert(index_keys(old_idx)[kk] != index_keys(old_idx)[k as int]);
                                    }
                                }
                            }
                        },
                        None => {
                            let cq = copy_quad(&quads[j]);
                            let mut list: Vec<Quad> = Vec::new();
                            list.push(cq);
                            idx.push((b.clone(), list));
                            proof {
                                assert(index_keys(idx@) =~= index_keys(old_idx).push(b@));
                                assert forall|kk: int| 0 <= kk < idx@.len() implies #[trigger] quad_views(idx@[kk].1@)
                                    == mentions_upto(ps, n + 1, idx@[kk].0@) by {
                                    if kk < old_idx.len() {
                                        assert(idx@[kk] == old_idx[kk]);
                                        if idx@[kk].0@ == b@ {
                                            assert(index_keys(old_idx)[kk] == b@);
                                            assert(index_keys(old_idx).contains(b@));
                                        }
                                    } else {
                                        lemma_no_mentions_before_key(ps, n as int, b@);
                                        assert(quad_views(idx@[kk].1@) =~= seq![cq@]);
                                    }
                                }
                            }
                        },
                    }
                },
                _ => {
                    proof {
                        assert forall|kk: int| 0 <= kk < idx@.len() implies #[trigger] quad_views(idx@[kk].1@)
                            == mentions_upto(ps, n + 1, idx@[kk].0@) by {
                            assert(ps[n as int].0 != TermView::Blank(idx@[kk].0@));
                        }
                    }
                },
            }
            t += 1;
        }
        j += 1;
    }
    idx
}

/// The keys of the first n terms are distinct.
proof fn lemma_keys_no_dup(ps: Seq<(TermView, QuadView)>, n: int)
    ensures
        keys_upto(ps, n).no_duplicates(),
    decreases n,
{
    if n > 0 {
        lemma_keys_no_dup(ps, n - 1);
        let k = keys_upto(ps, n - 1);
        match ps[n - 1].0 {
            TermView::Blank(b) => {
                if !k.contains(b) {
                    assert forall|a: int, c: int| 0 <= a < c < k.len() + 1 implies k.push(b)[a] != k.push(b)[c] by {
                        if c == k.len() {
                            assert(k.contains(k[a]));
                        }
                    }
                }
            },
            _ => {},
        }
    }
}

/// A label that is not among the keys of the first n terms has no mentions there.
proof fn lemma_no_mentions_before_key(ps: Seq<(TermView, QuadView)>, n: int, b: Seq<char>)
    requires
        !keys_upto(ps, n).contains(b),
    ensures
        mentions_upto(ps, n, b) == Seq::<QuadView>::empty(),
    decreases n,
{
    if n > 0 {
        let k = keys_upto(ps, n - 1);
        if ps[n - 1].0 == TermView::Blank(b) {
            if k.contains(b) {
            } else {
                assert(keys_upto(ps, n).contains(b)) by {
                    assert(keys_upto(ps, n) == k.push(b));
                    assert(k.push(b)[k.len() as int] == b);
                }
            }
        }
        assert(!k.contains(b)) by {
            match ps[n - 1].0 {
                TermView::Blank(c) => {
                    if !k.contains(c) {
                        if k.contains(b) {
                            let i = choose|i: int| 0 <= i < k.len() && k[i] == b;
                            assert(k.push(c)[i] == b);
                        }
                    }
                },
                _ => {},
            }
        }
        lemma_no_mentions_before_key(ps, n - 1, b);
    }
}

} // verus!

verus! {

// ---------------------------------------------------------------------------
// Hash First Degree Quads (RDFC-1.0, Section 4.6)
// ---------------------------------------------------------------------------

/// A blank node is written `_:a` when it is `id` and `_:z` otherwise.
pub open spec fn relabel_term_az(t: TermView, id: Seq<char>) -> TermView {
    match t {
        TermView::Blank(b) => TermView::Blank(if b == id { seq!['a'] } else { seq!['z'] }),
        _ => t,
    }
}

pub open spec fn relabel_az(q: QuadView, id: Seq<char>) -> QuadView {
    QuadView {
        subject: relabel_term_az(q.subject, id),
        predicate: relabel_term_az(q.predicate, id),
        object: relabel_term_az(q.object, id),
        graph_name: relabel_term_az(q.graph_name, id),
    }
}

/// The first-degree hash of blank node `id` with the quads `qs` that mention
/// it: SHA-256 of their sorted N-Quads lines with `id` as `_:a` and every other
/// blank node as `_:z`.
pub open spec fn first_degree_hash_spec(qs: Seq<QuadView>, id: Seq<char>) -> Seq<char> {
    sha256_hex_spec(concat_spec(sort_spec(Seq::new(qs.len(), |k: int| quad_text(relabel_az(qs[k], id))))))
}

/// The quads listed for `id` in the index (none when it is not a key).
pub open spec fn index_lookup(idx: Seq<(String, Vec<Quad>)>, id: Seq<char>) -> Seq<QuadView> {
    if index_keys(idx).contains(id) { quad_views(idx[index_keys(idx).index_of(id)].1@) } else { Seq::empty() }
}

fn relabel_term_first_degree(t: &Term, id: &String) -> (r: Term)
    ensures
        r@ == relabel_term_az(t@, id@),
{
    proof {
        reveal_strlit("a");
        reveal_strlit("z");
        assert("a"@ =~= seq!['a']);
        assert("z"@ =~= seq!['z']);
    }
    match t {
        Term::Blank(b) => {
            if *b == *id { Term::Blank(lit("a")) } else { Term::Blank(lit("z")) }
        },
        _ => copy_term(t),
    }
}

fn relabel_first_degree(q: &Quad, id: &String) -> (r: Quad)
    ensures
        r@ == relabel_az(q@, id@),
{
    Quad {
        subject: relabel_term_first_degree(&q.subject, id),
        predicate: relabel_term_first_degree(&q.predicate, id),
        object: relabel_term_first_degree(&q.object, id),
        graph_name: relabel_term_first_degree(&q.graph_name, id),
    }
}

/// With distinct keys, the key at position k is found at k.
proof fn lemma_key_position(idx: Seq<(String, Vec<Quad>)>, id: Seq<char>, k: int)
    requires
        0 <= k < idx.len(),
        index_keys(idx)[k] == id,
        index_keys(idx).no_duplicates(),
    ensures
        index_keys(idx).contains(id),
        index_keys(idx).index_of(id) == k,
{
    assert(index_keys(idx).contains(id));
    let i = index_keys(idx).index_of(id);
    assert(index_keys(idx)[i] == id);
}

/// Hash First Degree Quads for blank node `id`.
fn hash_first_degree_quads(id: &String, idx: &Vec<(String, Vec<Quad>)>) -> (r: Vec<char>)
    requires
        index_keys(idx@).no_duplicates(),
    ensures
        r@ == first_degree_hash_spec(index_lookup(idx@, id@), id@),
{
    let ghost qs = index_lookup(idx@, id@);
    let mut lines: Vec<Vec<char>> = Vec::new();
    match find_key(idx, id) {
        Some(k) => {
            proof {
                lemma_key_position(idx@, id@, k as int);
            }
            let list = &idx[k].1;
            let mut j: usize = 0;
            while j < list.len()
                invariant
                    0 <= j <= list@.len(),
                    qs == quad_views(list@),
                    texts(lines@) == Seq::new(j as nat, |m: int| quad_text(relabel_az(qs[m], id@))),
                decreases list@.len() - j,
            {
                let rq = relabel_first_degree(&list[j], id);
                let mut line: Vec<char> = Vec::new();
                rq.write_nquads(&mut line);
                assert(qs[j as int] == list@[j as int]@);
                assert(line@ == quad_text(relabel_az(qs[j as int], id@)));
                let ghost before = texts(lines@);
                let ghost lv = line@;
                lines.push(line);
                assert(texts(lines@) =~= before.push(lv));
                assert(texts(lines@) =~= Seq::new((j + 1) as nat, |m: int| quad_text(relabel_az(qs[m], id@))));
                j += 1;
            }
        },
        None => {
            assert(texts(lines@) =~= Seq::new(0, |m: int| quad_text(relabel_az(qs[m], id@))));
        },
    }
    let sorted = sort_texts(lines);
    let joined = concat_texts(&sorted);
    sha256_hex(joined.as_slice())
}

} // verus!

verus! {

// ---------------------------------------------------------------------------
// Permutations
// ---------------------------------------------------------------------------

/// Every ordering of items: for each position i in turn, items[i] followed by
/// the orderings of the others.
pub open spec fn perms_spec(items: Seq<Seq<char>>) -> Seq<Seq<Seq<char>>>
    decreases items.len(), items.len() + 1,
{
    if items.len() == 0 {
        seq![Seq::empty()]
    } else if items.len() == 1 {
        seq![items]
    } else {
        perms_from(items, 0)
    }
}

/// The orderings of items that start with items[i], items[i + 1], ... .
pub open spec fn perms_from(items: Seq<Seq<char>>, i: int) -> Seq<Seq<Seq<char>>>
    decreases items.len(), items.len() - i,
{
    if i < 0 || i >= items.len() {
        Seq::empty()
    } else {
        let rest = perms_spec(items.remove(i));
        Seq::new(rest.len(), |k: int| seq![items[i]] + rest[k]) + perms_from(items, i + 1)
    }
}

/// Every element of every ordering is one of the items.
pub proof fn lemma_perms_members(items: Seq<Seq<char>>)
    ensures
        forall|k: int, j: int| 0 <= k < perms_spec(items).len() && 0 <= j < perms_spec(items)[k].len()
            ==> items.contains(#[trigger] perms_spec(items)[k][j]),
    decreases items.len(), items.len() + 1,
{
    if items.len() == 1 {
        assert forall|k: int, j: int| 0 <= k < perms_spec(items).len() && 0 <= j < perms_spec(items)[k].len()
            implies items.contains(#[trigger] perms_spec(items)[k][j]) by {
            assert(perms_spec(items)[k] == items);
        }
    } else if items.len() > 1 {
        lemma_perms_from_members(items, 0);
        assert(perms_spec(items) == perms_from(items, 0));
    }
}

proof fn lemma_perms_from_members(items: Seq<Seq<char>>, i: int)
    requires
        items.len() > 1,
        0 <= i,
    ensures
        forall|k: int, j: int| 0 <= k < perms_from(items, i).len() && 0 <= j < perms_from(items, i)[k].len()
            ==> items.contains(#[trigger] perms_from(items, i)[k][j]),
    decreases items.len(), items.len() - i,
{
    if i < items.len() {
        let rem = items.remove(i);
        let rest = perms_spec(rem);
        lemma_perms_members(rem);
        lemma_perms_from_members(items, i + 1);
        let head = Seq::new(rest.len(), |k: int| seq![items[i]] + rest[k]);
        assert forall|k: int, j: int| 0 <= k < perms_from(items, i).len() && 0 <= j < perms_from(items, i)[k].len()
            implies items.contains(#[trigger] perms_from(items, i)[k][j]) by {
            if k < head.len() {
                if j == 0 {
                    assert(perms_from(items, i)[k][j] == items[i]);
                } else {
                    assert(perms_from(items, i)[k][j] == rest[k][j - 1]);
                    assert(rem.contains(rest[k][j - 1]));
                    let m = choose|m: int| 0 <= m < rem.len() && rem[m] == rest[k][j - 1];
                    if m < i {
                        assert(items[m] == rem[m]);
                    } else {
                        assert(items[m + 1] == rem[m]);
                    }
                }
            } else {
                assert(perms_from(items, i)[k] == perms_from(items, i + 1)[k - head.len()]);
            }
        }
    }
}

/// The views of a vector of strings.
pub open spec fn string_views(v: Seq<String>) -> Seq<Seq<char>> {
    Seq::new(v.len(), |i: int| v[i]@)
}

fn copy_strings(v: &[String]) -> (r: Vec<String>)
    ensures
        string_views(r@) == string_views(v@),
{
    let mut r: Vec<String> = Vec::new();
    let mut i: usize = 0;
    while i < v.len()
        invariant
            0 <= i <= v@.len(),
            string_views(r@) == string_views(v@).subrange(0, i as int),
        decreases v@.len() - i,
    {
        let c = v[i].clone();
        let ghost before = string_views(r@);
        r.push(c);
        assert(string_views(r@) =~= before.push(v@[i as int]@));
        assert(string_views(r@) =~= string_views(v@).subrange(0, i + 1));
        i += 1;
    }
    assert(string_views(v@).subrange(0, v@.len() as int) =~= string_views(v@));
    r
}

/// Every ordering of `items` (n! of them for n items).
fn permutations(items: &[String]) -> (r: Vec<Vec<String>>)
    ensures
        r@.len() == perms_spec(string_views(items@)).len(),
        forall|k: int| 0 <= k < r@.len() ==> #[trigger] string_views(r@[k]@) == perms_spec(string_views(items@))[k],
    decreases items@.len(), items@.len() + 1,
{
    let ghost it = string_views(items@);
    if items.len() == 0 {
        let mut r: Vec<Vec<String>> = Vec::new();
        r.push(Vec::new());
        assert(string_views(r@[0]@) =~= Seq::<Seq<char>>::empty());
        return r;
    }
    if items.len() == 1 {
        let mut r: Vec<Vec<String>> = Vec::new();
        r.push(copy_strings(items));
        return r;
    }
    let mut result: Vec<Vec<String>> = Vec::new();
    let mut i: usize = 0;
    while i < items.len()
        invariant
            0 <= i <= items@.len(),
            items@.len() > 1,
            it == string_views(items@),
            perms_from(it, 0) == {
                let done = result@;
                Seq::new(done.len(), |k: int| string_views(done[k]@))
            } + perms_from(it, i as int),
        decreases items@.len() - i,
    {
        let mut rest = copy_strings(items);
        let pivot = rest.remove(i);
        proof {
            assert(string_views(rest@) =~= it.remove(i as int));
        }
        let sub = permutations(rest.as_slice());
        let ghost before = Seq::new(result@.len(), |k: int| string_views(result@[k]@));
        let ghost subv = perms_spec(it.remove(i as int));
        let mut k: usize = 0;
        while k < sub.len()
            invariant
                0 <= k <= sub@.len(),
                i < items@.len(),
                it == string_views(items@),
                pivot@ == it[i as int],
                sub@.len() == subv.len(),
                forall|m: int| 0 <= m < sub@.len() ==> #[trigger] string_views(sub@[m]@) == subv[m],
                Seq::new(result@.len(), |m: int| string_views(result@[m]@))
                    == before + Seq::new(k as nat, |m: int| seq![it[i as int]] + subv[m]),
            decreases sub@.len() - k,
        {
            let mut p = copy_strings(sub[k].as_slice());
            p.insert(0, pivot.clone());
            let ghost pv = string_views(p@);
            assert(pv =~= seq![it[i as int]] + subv[k as int]);
            let ghost rb = Seq::new(result@.len(), |m: int| string_views(result@[m]@));
            result.push(p);
            assert(Seq::new(result@.len(), |m: int| string_views(result@[m]@)) =~= rb.push(pv));
            assert(Seq::new(result@.len(), |m: int| string_views(result@[m]@))
                =~= before + Seq::new((k + 1) as nat, |m: int| seq![it[i as int]] + subv[m]));
            k += 1;
        }
        proof {
            assert(Seq::new(sub@.len(), |m: int| seq![it[i as int]] + subv[m])
                =~= Seq::new(subv.len(), |m: int| seq![it[i as int]] + subv[m]));
            assert(perms_from(it, i as int) == Seq::new(subv.len(), |m: int| seq![it[i as int]] + subv[m])
                + perms_from(it, i + 1));
            assert(perms_from(it, 0) =~= Seq::new(result@.len(), |m: int| string_views(result@[m]@))
                + perms_from(it, i + 1));
        }
        i += 1;
    }
    proof {
        assert(perms_from(it, items@.len() as int) =~= Seq::<Seq<Seq<char>>>::empty());
        assert(perms_spec(it) == perms_from(it, 0));
        assert forall|k: int| 0 <= k < result@.len() implies #[trigger] string_views(result@[k]@) == perms_spec(it)[k] by {
            assert(perms_from(it, 0)[k] == Seq::new(result@.len(), |m: int| string_views(result@[m]@))[k]);
        }
    }
    result
}

} // verus!

verus! {

// ---------------------------------------------------------------------------
// Hash N-Degree Quads (RDFC-1.0, Section 4.8)
// ---------------------------------------------------------------------------

/// An index whose labels are distinct and name every blank node of its quads.
pub open spec fn index_wf(idx: Seq<(String, Vec<Quad>)>) -> bool {
    &&& index_keys(idx).no_duplicates()
    &&& forall|k: int, j: int, t: int| 0 <= k < idx.len() && 0 <= j < idx[k].1@.len() && 0 <= t < 4 ==>
        (#[trigger] quad_term(idx[k].1@[j]@, t) matches TermView::Blank(c) ==> index_keys(idx).contains(c))
}

/// a starts with b.
pub open spec fn extends(a: Seq<Seq<char>>, b: Seq<Seq<char>>) -> bool {
    b.len() <= a.len() && a.subrange(0, b.len() as int) == b
}

/// Every element of ids is one of keys.
pub open spec fn within(ids: Seq<Seq<char>>, keys: Seq<Seq<char>>) -> bool {
    forall|k: int| 0 <= k < ids.len() ==> keys.contains(#[trigger] ids[k])
}

/// An issuer usable during the n-degree hash: well formed, with the given
/// prefix, having issued identifiers only for labels of the index.
pub open spec fn issuer_ok(iss: IdentifierIssuer, prefix: Seq<char>, idx: Seq<(String, Vec<Quad>)>) -> bool {
    &&& iss.wf()
    &&& iss.prefix@ == prefix
    &&& within(iss.ids(), index_keys(idx))
}

/// Distinct labels of an index number at most the index's length.
proof fn lemma_within_len(ids: Seq<Seq<char>>, keys: Seq<Seq<char>>)
    requires
        ids.no_duplicates(),
        within(ids, keys),
    ensures
        ids.len() <= keys.len(),
{
    broadcast use vstd::set::group_set_axioms, vstd::seq_lib::seq_to_set_is_finite;
    ids.unique_seq_to_set();
    assert forall|x: Seq<char>| ids.to_set().contains(x) implies keys.to_set().contains(x) by {
        let k = choose|k: int| 0 <= k < ids.len() && ids[k] == x;
        assert(keys.contains(ids[k]));
    }
    vstd::set_lib::lemma_len_subset(ids.to_set(), keys.to_set());
    keys.lemma_cardinality_of_set();
}

/// An extension holding a label that the shorter sequence lacks is longer.
proof fn lemma_extends_longer(a: Seq<Seq<char>>, b: Seq<Seq<char>>, x: Seq<char>)
    requires
        extends(a, b),
        a.contains(x),
        !b.contains(x),
    ensures
        a.len() > b.len(),
{
    if a.len() == b.len() {
        assert(a =~= b) by {
            assert(a.subrange(0, b.len() as int) =~= a);
        }
    }
}

proof fn lemma_extends_trans(a: Seq<Seq<char>>, b: Seq<Seq<char>>, c: Seq<Seq<char>>)
    requires
        extends(a, b),
        extends(b, c),
    ensures
        extends(a, c),
{
    assert(a.subrange(0, c.len() as int) =~= b.subrange(0, c.len() as int));
}

proof fn lemma_extends_contains(a: Seq<Seq<char>>, b: Seq<Seq<char>>, x: Seq<char>)
    requires
        extends(a, b),
        b.contains(x),
    ensures
        a.contains(x),
{
    let k = choose|k: int| 0 <= k < b.len() && b[k] == x;
    assert(a.subrange(0, b.len() as int)[k] == x);
}

/// Every string of list is among a and not among b.
pub open spec fn fresh_in(list: Seq<String>, a: Seq<Seq<char>>, b: Seq<Seq<char>>) -> bool {
    forall|m: int| 0 <= m < list.len() ==> a.contains(#[trigger] list[m]@) && !b.contains(list[m]@)
}

/// The related blank nodes of every group are labels of the index.
pub open spec fn groups_within(g: Seq<(Vec<char>, Vec<String>)>, keys: Seq<Seq<char>>) -> bool {
    forall|k: int, m: int| 0 <= k < g.len() && 0 <= m < g[k].1@.len() ==> keys.contains(#[trigger] g[k].1@[m]@)
}

fn text_eq(a: &[char], b: &[char]) -> (r: bool)
    ensures
        r == (a@ == b@),
{
    if a.len() != b.len() {
        return false;
    }
    let mut i: usize = 0;
    while i < a.len()
        invariant
            0 <= i <= a@.len(),
            a@.len() == b@.len(),
            forall|j: int| 0 <= j < i ==> a@[j] == b@[j],
        decreases a@.len() - i,
    {
        if a[i] != b[i] {
            return false;
        }
        i += 1;
    }
    assert(a@ =~= b@);
    true
}

/// Whether two texts are equal.
pub fn text_eq_pub(a: &[char], b: &[char]) -> (r: bool)
    ensures
        r == (a@ == b@),
{
    text_eq(a, b)
}

/// The groups as texts: each hash with the labels of its group.
pub open spec fn groups_view(g: Seq<(Vec<char>, Vec<String>)>) -> Seq<(Seq<char>, Seq<Seq<char>>)> {
    Seq::new(g.len(), |a: int| (g[a].0@, string_views(g[a].1@)))
}

/// The first position from k on whose hash does not come before h.
pub open spec fn group_pos(g: Seq<(Seq<char>, Seq<Seq<char>>)>, h: Seq<char>, k: int) -> int
    decreases g.len() - k,
{
    if k < 0 || k >= g.len() || !lex_lt(g[k].0, h) { k } else { group_pos(g, h, k + 1) }
}

/// x added to the group of hash h, a new group being inserted in hash order
/// when there is none.
pub open spec fn group_add(g: Seq<(Seq<char>, Seq<Seq<char>>)>, h: Seq<char>, x: Seq<char>)
    -> Seq<(Seq<char>, Seq<Seq<char>>)> {
    let k = group_pos(g, h, 0);
    if k < g.len() && g[k].0 == h { g.update(k, (h, g[k].1.push(x))) } else { g.insert(k, (h, seq![x])) }
}

/// x is an element of one of the lists.
pub open spec fn in_lists(nu: Seq<Vec<String>>, x: Seq<char>) -> bool {
    exists|k: int, m: int| 0 <= k < nu.len() && 0 <= m < nu[k]@.len() && #[trigger] nu[k]@[m]@ == x
}

/// x is a member of one of the groups.
pub open spec fn in_groups(g: Seq<(Vec<char>, Vec<String>)>, x: Seq<char>) -> bool {
    exists|a: int, m: int| 0 <= a < g.len() && 0 <= m < g[a].1@.len() && #[trigger] g[a].1@[m]@ == x
}

/// Adds `related` to the group of hash h, keeping the groups ordered by hash.
fn group_insert(groups: &mut Vec<(Vec<char>, Vec<String>)>, h: Vec<char>, related: String, Ghost(keys): Ghost<Seq<Seq<char>>>)
    requires
        groups_within(old(groups)@, keys),
        keys.contains(related@),
    ensures
        groups_within(final(groups)@, keys),
        in_groups(final(groups)@, related@),
        forall|x: Seq<char>| #[trigger] in_groups(old(groups)@, x) ==> in_groups(final(groups)@, x),
        groups_view(final(groups)@) == group_add(groups_view(old(groups)@), h@, related@),
{
    let ghost gv = groups_view(groups@);
    let mut k: usize = 0;
    while k < groups.len() && lex_lt_exec(groups[k].0.as_slice(), h.as_slice())
        invariant
            0 <= k <= groups@.len(),
            groups@ == old(groups)@,
            gv == groups_view(groups@),
            group_pos(gv, h@, k as int) == group_pos(gv, h@, 0),
        decreases groups@.len() - k,
    {
        assert(gv[k as int].0 == groups@[k as int].0@);
        k += 1;
    }
    proof {
        if k < groups@.len() {
            assert(gv[k as int].0 == groups@[k as int].0@);
        }
        assert(group_pos(gv, h@, k as int) == k);
    }
    let ghost g0 = groups@;
    if k < groups.len() && text_eq(groups[k].0.as_slice(), h.as_slice()) {
        let mut entry = groups.remove(k);
        let ghost rv = related@;
        entry.1.push(related);
        let ghost e = entry;
        groups.insert(k, entry);
        proof {
            assert(groups@ =~= g0.update(k as int, e));
            assert(gv[k as int].0 == h@);
            assert(string_views(e.1@) =~= gv[k as int].1.push(rv));
            assert(groups_view(groups@) =~= group_add(gv, h@, rv));
            assert(e.1@[e.1@.len() - 1]@ == rv);
            assert(groups@[k as int].1@[e.1@.len() - 1]@ == rv);
            assert(in_groups(groups@, rv));
            assert forall|x: Seq<char>| #[trigger] in_groups(g0, x) implies in_groups(groups@, x) by {
                let (a, m) = choose|a: int, m: int| 0 <= a < g0.len() && 0 <= m < g0[a].1@.len() && #[trigger] g0[a].1@[m]@ == x;
                assert(groups@[a].1@[m] == g0[a].1@[m]);
            }
            assert forall|a: int, m: int| 0 <= a < groups@.len() && 0 <= m < groups@[a].1@.len()
                implies keys.contains(#[trigger] groups@[a].1@[m]@) by {
                if a == k {
                    if m < g0[a].1@.len() {
                        assert(groups@[a].1@[m] == g0[a].1@[m]);
                    }
                }
            }
        }
    } else {
        let mut list: Vec<String> = Vec::new();
        let ghost rv = related@;
        list.push(related);
        let ghost e = (h, list);
        groups.insert(k, (h, list));
        proof {
            assert(k < gv.len() ==> gv[k as int].0 != h@);
            assert(string_views(e.1@) =~= seq![rv]);
            assert(groups_view(groups@) =~= group_add(gv, h@, rv));
            assert(groups@[k as int].1@[0]@ == rv);
            assert(in_groups(groups@, rv));
            assert forall|x: Seq<char>| #[trigger] in_groups(g0, x) implies in_groups(groups@, x) by {
                let (a, m) = choose|a: int, m: int| 0 <= a < g0.len() && 0 <= m < g0[a].1@.len() && #[trigger] g0[a].1@[m]@ == x;
                if a < k {
                    assert(groups@[a] == g0[a]);
                } else {
                    assert(groups@[a + 1] == g0[a]);
                }
            }
            assert forall|a: int, m: int| 0 <= a < groups@.len() && 0 <= m < groups@[a].1@.len()
                implies keys.contains(#[trigger] groups@[a].1@[m]@) by {
                if a < k {
                    assert(groups@[a] == g0[a]);
                } else if a > k {
                    assert(groups@[a] == g0[a - 1]);
                }
            }
        }
    }
}

/// "_:" followed by the label.
fn blank_label(label: &[char]) -> (r: Vec<char>)
    ensures
        r@ == seq!['_', ':'] + label@,
{
    let mut r: Vec<char> = Vec::new();
    r.push('_');
    r.push(':');
    append_chars(&mut r, label);
    r
}

/// The label of a related blank node r in Hash N-Degree Quads: its canonical
/// identifier, else its temporary identifier, else its first-degree hash.
pub open spec fn related_label(cp: Seq<char>, cids: Seq<Seq<char>>, tp: Seq<char>, tids: Seq<Seq<char>>,
    idx: Seq<(String, Vec<Quad>)>, r: Seq<char>) -> Seq<char> {
    if cids.contains(r) {
        seq!['_', ':'] + cp + decimal_spec(cids.index_of(r) as nat)
    } else if tids.contains(r) {
        seq!['_', ':'] + tp + decimal_spec(tids.index_of(r) as nat)
    } else {
        seq!['_', ':'] + first_degree_hash_spec(index_lookup(idx, r), r)
    }
}

/// Position t (0: subject, 1: object, 2: graph name) of quad q, when it holds a
/// blank node other than id: the hash of the position letter, the predicate
/// and the node's label, with the node.
pub open spec fn related_entry(id: Seq<char>, q: QuadView, t: int, cp: Seq<char>, cids: Seq<Seq<char>>, tp: Seq<char>,
    tids: Seq<Seq<char>>, idx: Seq<(String, Vec<Quad>)>) -> Option<(Seq<char>, Seq<char>)> {
    let term = if t == 0 { q.subject } else if t == 1 { q.object } else { q.graph_name };
    let pos = if t == 0 { 's' } else if t == 1 { 'o' } else { 'g' };
    match term {
        TermView::Blank(r) => if r != id {
            Some((sha256_hex_spec(seq![pos] + term_text(q.predicate) + related_label(cp, cids, tp, tids, idx, r)), r))
        } else {
            None
        },
        _ => None,
    }
}

/// The groups of related blank nodes from the first n positions of qs (three
/// per quad), each node added to the group of its hash.
pub open spec fn related_groups_spec(id: Seq<char>, qs: Seq<QuadView>, n: int, cp: Seq<char>, cids: Seq<Seq<char>>,
    tp: Seq<char>, tids: Seq<Seq<char>>, idx: Seq<(String, Vec<Quad>)>) -> Seq<(Seq<char>, Seq<Seq<char>>)>
    decreases n,
{
    if n <= 0 {
        Seq::empty()
    } else {
        let prev = related_groups_spec(id, qs, n - 1, cp, cids, tp, tids, idx);
        match related_entry(id, qs[(n - 1) / 3], (n - 1) % 3, cp, cids, tp, tids, idx) {
            Some((h, r)) => group_add(prev, h, r),
            None => prev,
        }
    }
}

/// Step 3 of Hash N-Degree Quads: the related blank nodes of each quad
/// mentioning `id` (as subject, object or graph name), grouped by the hash of
/// their position, the quad's predicate and their current label.
fn related_groups(id: &String, list: &Vec<Quad>, canon: &IdentifierIssuer, tmp: &IdentifierIssuer,
    idx: &Vec<(String, Vec<Quad>)>) -> (groups: Vec<(Vec<char>, Vec<String>)>)
    requires
        canon.wf(),
        tmp.wf(),
        index_wf(idx@),
        forall|j: int, t: int| 0 <= j < list@.len() && 0 <= t < 4 ==>
            (#[trigger] quad_term(list@[j]@, t) matches TermView::Blank(c) ==> index_keys(idx@).contains(c)),
    ensures
        groups_within(groups@, index_keys(idx@)),
        groups_view(groups@) == related_groups_spec(id@, quad_views(list@), 3 * list@.len() as int,
            canon.prefix@, canon.ids(), tmp.prefix@, tmp.ids(), idx@),
{
    let ghost keys = index_keys(idx@);
    let ghost qs = quad_views(list@);
    let mut groups: Vec<(Vec<char>, Vec<String>)> = Vec::new();
    assert(groups_view(groups@) =~= Seq::<(Seq<char>, Seq<Seq<char>>)>::empty());
    let mut j: usize = 0;
    while j < list.len()
        invariant
            0 <= j <= list@.len(),
            qs == quad_views(list@),
            groups_view(groups@) == related_groups_spec(id@, qs, 3 * j, canon.prefix@, canon.ids(), tmp.prefix@, tmp.ids(), idx@),
            canon.wf(),
            tmp.wf(),
            index_wf(idx@),
            keys == index_keys(idx@),
            forall|jj: int, t: int| 0 <= jj < list@.len() && 0 <= t < 4 ==>
                (#[trigger] quad_term(list@[jj]@, t) matches TermView::Blank(c) ==> keys.contains(c)),
            groups_within(groups@, keys),
        decreases list@.len() - j,
    {
        let q = &list[j];
        let mut t: usize = 0;
        while t < 3
            invariant
                0 <= j < list@.len(),
                0 <= t <= 3,
                canon.wf(),
                tmp.wf(),
                index_wf(idx@),
                keys == index_keys(idx@),
                forall|jj: int, tt: int| 0 <= jj < list@.len() && 0 <= tt < 4 ==>
                    (#[trigger] quad_term(list@[jj]@, tt) matches TermView::Blank(c) ==> keys.contains(c)),
                groups_within(groups@, keys),
                q == &list@[j as int],
                qs == quad_views(list@),
                groups_view(groups@) == related_groups_spec(id@, qs, 3 * j + t, canon.prefix@, canon.ids(), tmp.prefix@,
                    tmp.ids(), idx@),
            decreases 3 - t,
        {
            let (term, pos) = if t == 0 { (&q.subject, 's') } else if t == 1 { (&q.object, 'o') } else { (&q.graph_name, 'g') };
            let ti: usize = if t == 0 { 0 } else if t == 1 { 2 } else { 3 };
            assert(term@ == quad_term(q@, ti as int));
            let ghost n = 3 * j + t;
            let ghost prev = groups_view(groups@);
            proof {
                assert((n + 1 - 1) / 3 == j as int && (n + 1 - 1) % 3 == t as int);
                assert(qs[j as int] == q@);
            }
            match term {
                Term::Blank(related) => {
                    if *related != *id {
                        let rl = text_chars(related.as_str());
                        let label: Vec<char> = match canon.get(related.as_str()) {
                            Some(c) => blank_label(text_chars(c).as_slice()),
                            None => match tmp.get(related.as_str()) {
                                Some(tl) => blank_label(text_chars(tl).as_slice()),
                                None => {
                                    let fh = hash_first_degree_quads(related, idx);
                                    blank_label(fh.as_slice())
                                },
                            },
                        };
                        let mut input: Vec<char> = Vec::new();
                        input.push(pos);
                        q.predicate.write_nquads(&mut input);
                        append_chars(&mut input, label.as_slice());
                        let h = sha256_hex(input.as_slice());
                        assert(keys.contains(related@));
                        proof {
                            assert(label@ == related_label(canon.prefix@, canon.ids(), tmp.prefix@, tmp.ids(), idx@, related@));
                            assert(input@ == seq![pos] + term_text(q@.predicate) + label@);
                        }
                        group_insert(&mut groups, h, related.clone(), Ghost(keys));
                    }
                },
                _ => {},
            }
            t += 1;
        }
        j += 1;
    }
    groups
}

} // verus!

verus! {

/// Phase one of trying an ordering of a group (Steps 5.4.4 and 5.4.5 of Hash
/// N-Degree Quads), from position i: the label of each node is appended to the
/// path, a node without a canonical identifier is given a temporary one and,
/// when it had none, queued for recursion; the walk stops after the first node
/// that leaves the path after `chosen`. The path, the temporary identifiers
/// and the queue after it.
pub open spec fn perm_walk(perm: Seq<Seq<char>>, i: int, chosen: Seq<char>, cp: Seq<char>, cids: Seq<Seq<char>>,
    tp: Seq<char>, tids: Seq<Seq<char>>, path: Seq<char>, rl: Seq<Seq<char>>)
    -> (Seq<char>, Seq<Seq<char>>, Seq<Seq<char>>)
    decreases perm.len() - i,
{
    if i < 0 || i >= perm.len() {
        (path, tids, rl)
    } else {
        let r = perm[i];
        let path2 = if cids.contains(r) {
            path + seq!['_', ':'] + cp + decimal_spec(cids.index_of(r) as nat)
        } else if tids.contains(r) {
            path + seq!['_', ':'] + tp + decimal_spec(tids.index_of(r) as nat)
        } else {
            path + seq!['_', ':'] + tp + decimal_spec(tids.len())
        };
        let tids2 = if cids.contains(r) || tids.contains(r) { tids } else { tids.push(r) };
        let rl2 = if cids.contains(r) || tids.contains(r) { rl } else { rl.push(r) };
        if chosen.len() > 0 && lex_lt(chosen, path2) {
            (path2, tids2, rl2)
        } else {
            perm_walk(perm, i + 1, chosen, cp, cids, tp, tids2, path2, rl2)
        }
    }
}

/// Phase two of trying an ordering (Step 5.4.5 of Hash N-Degree Quads), from
/// position k of the queue: the n-degree hash of each queued node is appended
/// to the path in angle brackets, the temporary identifiers carried along; None
/// as soon as the path comes after `chosen`.
pub open spec fn rec_walk(rl: Seq<Seq<char>>, k: int, chosen: Seq<char>, cp: Seq<char>, cids: Seq<Seq<char>>,
    tp: Seq<char>, tids: Seq<Seq<char>>, idx: Seq<(String, Vec<Quad>)>, fuel: int, path: Seq<char>)
    -> Option<(Seq<char>, Seq<Seq<char>>)>
    decreases fuel, 0int, rl.len() - k,
{
    if k < 0 || k >= rl.len() {
        Some((path, tids))
    } else {
        let m = idx.len() - tids.len();
        if !(0 <= m < fuel) {
            None
        } else {
            let (h, t2) = hnd_spec(rl[k], cp, cids, tp, tids, idx, m);
            let path2 = path + seq!['<'] + h + seq!['>'];
            if chosen.len() > 0 && lex_lt(chosen, path2) {
                None
            } else {
                rec_walk(rl, k + 1, chosen, cp, cids, tp, t2, idx, fuel, path2)
            }
        }
    }
}

/// One ordering of a group (Step 5.4 of Hash N-Degree Quads): its path and
/// temporary identifiers, or None when it is abandoned as worse than `chosen`.
pub open spec fn try_perm_spec(perm: Seq<Seq<char>>, chosen: Seq<char>, cp: Seq<char>, cids: Seq<Seq<char>>,
    tp: Seq<char>, tids: Seq<Seq<char>>, idx: Seq<(String, Vec<Quad>)>, fuel: int) -> Option<(Seq<char>, Seq<Seq<char>>)>
    decreases fuel, 1int, 0int,
{
    let w = perm_walk(perm, 0, chosen, cp, cids, tp, tids, Seq::empty(), Seq::empty());
    rec_walk(w.2, 0, chosen, cp, cids, tp, w.1, idx, fuel, w.0)
}

/// The smallest path over the orderings perms[p..] (Steps 5.3 to 5.6 of Hash
/// N-Degree Quads), starting from the best so far, with the temporary
/// identifiers that produced it.
pub open spec fn best_path(perms: Seq<Seq<Seq<char>>>, p: int, cp: Seq<char>, cids: Seq<Seq<char>>, tp: Seq<char>,
    tids: Seq<Seq<char>>, idx: Seq<(String, Vec<Quad>)>, fuel: int, chosen: Seq<char>, ci: Option<Seq<Seq<char>>>)
    -> (Seq<char>, Seq<Seq<char>>)
    decreases fuel, 2int, perms.len() - p,
{
    if p < 0 || p >= perms.len() {
        (chosen, match ci { Some(c) => c, None => tids })
    } else {
        match try_perm_spec(perms[p], chosen, cp, cids, tp, tids, idx, fuel) {
            None => best_path(perms, p + 1, cp, cids, tp, tids, idx, fuel, chosen, ci),
            Some((path, t)) => if chosen.len() == 0 || lex_lt(path, chosen) {
                best_path(perms, p + 1, cp, cids, tp, tids, idx, fuel, path, Some(t))
            } else {
                best_path(perms, p + 1, cp, cids, tp, tids, idx, fuel, chosen, ci)
            },
        }
    }
}

/// The groups from g on (Step 5 of Hash N-Degree Quads): each group's hash and
/// its best path appended to the data, the temporary identifiers carried along.
pub open spec fn groups_walk(groups: Seq<(Seq<char>, Seq<Seq<char>>)>, g: int, cp: Seq<char>, cids: Seq<Seq<char>>,
    tp: Seq<char>, tids: Seq<Seq<char>>, idx: Seq<(String, Vec<Quad>)>, fuel: int, data: Seq<char>)
    -> (Seq<char>, Seq<Seq<char>>)
    decreases fuel, 3int, groups.len() - g,
{
    if g < 0 || g >= groups.len() {
        (data, tids)
    } else {
        let b = best_path(perms_spec(groups[g].1), 0, cp, cids, tp, tids, idx, fuel, Seq::empty(), None);
        groups_walk(groups, g + 1, cp, cids, tp, b.1, idx, fuel, data + groups[g].0 + b.0)
    }
}

/// Hash N-Degree Quads (RDFC-1.0, Section 4.8) for blank node id, with the
/// canonical identifiers cids (prefix cp) and the temporary ones tids (prefix
/// tp): the hash and the temporary identifiers after it. `fuel` bounds the
/// depth of recursion; every recursive call has fewer blank nodes left without
/// a temporary identifier.
pub open spec fn hnd_spec(id: Seq<char>, cp: Seq<char>, cids: Seq<Seq<char>>, tp: Seq<char>, tids: Seq<Seq<char>>,
    idx: Seq<(String, Vec<Quad>)>, fuel: int) -> (Seq<char>, Seq<Seq<char>>)
    decreases fuel, 4int, 0int,
{
    if !index_keys(idx).contains(id) {
        (sha256_hex_spec(Seq::empty()), tids)
    } else {
        let qs = index_lookup(idx, id);
        let groups = related_groups_spec(id, qs, 3 * qs.len() as int, cp, cids, tp, tids, idx);
        let w = groups_walk(groups, 0, cp, cids, tp, tids, idx, fuel, Seq::empty());
        (sha256_hex_spec(w.0), w.1)
    }
}

/// The identifiers of an optional issuer.
pub open spec fn opt_ids(o: Option<IdentifierIssuer>) -> Option<Seq<Seq<char>>> {
    match o {
        Some(i) => Some(i.ids()),
        None => None,
    }
}

/// One ordering of a group of related blank nodes (Step 5.4 of Hash N-Degree
/// Quads): the path it yields and the issuer after it, or None when the path
/// is abandoned as worse than `chosen`.
#[verifier::rlimit(40)]
fn try_permutation(perm: &Vec<String>, chosen: &Vec<char>, canon: &IdentifierIssuer, tmp: &IdentifierIssuer,
    idx: &Vec<(String, Vec<Quad>)>, Ghost(measure): Ghost<int>) -> (r: Option<(Vec<char>, IdentifierIssuer)>)
    requires
        idx@.len() - tmp.ids().len() <= measure,
        canon.wf(),
        issuer_ok(*tmp, tmp.prefix@, idx@),
        index_wf(idx@),
        idx@.len() < u64::MAX,
        forall|m: int| 0 <= m < perm@.len() ==> index_keys(idx@).contains(#[trigger] perm@[m]@),
    ensures
        r matches Some((path, iss)) ==> issuer_ok(iss, tmp.prefix@, idx@) && extends(iss.ids(), tmp.ids()),
        match try_perm_spec(string_views(perm@), chosen@, canon.prefix@, canon.ids(), tmp.prefix@, tmp.ids(), idx@, measure) {
            Some((p, t)) => r matches Some((path, iss)) && path@ == p && iss.ids() == t,
            None => r is None,
        },
    decreases measure, 0int,
{
    let ghost keys = index_keys(idx@);
    let ghost sp = string_views(perm@);
    let ghost (cp, cids, tp) = (canon.prefix@, canon.ids(), tmp.prefix@);
    let ghost w = perm_walk(sp, 0, chosen@, cp, cids, tp, tmp.ids(), Seq::empty(), Seq::empty());
    let ghost target = try_perm_spec(sp, chosen@, cp, cids, tp, tmp.ids(), idx@, measure);
    let mut issuer_copy = tmp.duplicate();
    let mut path: Vec<char> = Vec::new();
    let mut recursion_list: Vec<String> = Vec::new();
    proof {
        assert(issuer_copy.ids().subrange(0, tmp.ids().len() as int) =~= tmp.ids());
        assert(views(recursion_list@) =~= Seq::<Seq<char>>::empty());
        assert(path@ =~= Seq::<char>::empty());
    }
    let mut i: usize = 0;
    let mut stop = false;
    while i < perm.len() && !stop
        invariant
            0 <= i <= perm@.len(),
            sp == string_views(perm@),
            cp == canon.prefix@,
            cids == canon.ids(),
            tp == tmp.prefix@,
            w == perm_walk(sp, 0, chosen@, cp, cids, tp, tmp.ids(), Seq::empty(), Seq::empty()),
            !stop ==> perm_walk(sp, i as int, chosen@, cp, cids, tp, issuer_copy.ids(), path@, views(recursion_list@)) == w,
            stop ==> w == (path@, issuer_copy.ids(), views(recursion_list@)),
            canon.wf(),
            index_wf(idx@),
            keys == index_keys(idx@),
            idx@.len() < u64::MAX,
            issuer_ok(*tmp, tmp.prefix@, idx@),
            issuer_ok(issuer_copy, tmp.prefix@, idx@),
            extends(issuer_copy.ids(), tmp.ids()),
            forall|m: int| 0 <= m < perm@.len() ==> keys.contains(#[trigger] perm@[m]@),
            fresh_in(recursion_list@, issuer_copy.ids(), tmp.ids()),
        decreases perm@.len() - i,
    {
        let related = &perm[i];
        let ghost p0 = path@;
        let ghost t0 = issuer_copy.ids();
        let ghost r0 = views(recursion_list@);
        assert(sp[i as int] == related@);
        match canon.get(related.as_str()) {
            Some(c) => {
                let l = blank_label(text_chars(c).as_slice());
                append_chars(&mut path, l.as_slice());
                proof {
                    assert(path@ =~= p0 + seq!['_', ':'] + cp + decimal_spec(cids.index_of(related@) as nat));
                }
            },
            None => {
                let was = issuer_copy.has_issued(related.as_str());
                let ghost old_list = recursion_list@;
                if !was {
                    let rc = related.clone();
                    recursion_list.push(rc);
                    assert(recursion_list@ == old_list.push(rc));
                } else {
                    assert(recursion_list@ == old_list);
                }
                proof {
                    lemma_within_len(issuer_copy.ids(), keys);
                }
                let ghost before = issuer_copy;
                let t = issuer_copy.issue(related.as_str());
                proof {
                    assert(keys.contains(perm@[i as int]@));
                    assert(issuer_copy.ids().subrange(0, before.ids().len() as int) =~= before.ids());
                    if !before.ids().contains(related@) {
                        assert(issuer_copy.ids()[before.ids().len() as int] == related@);
                    }
                    lemma_extends_trans(issuer_copy.ids(), before.ids(), tmp.ids());
                    assert(extends(issuer_copy.ids(), before.ids()));
                    assert forall|m: int| 0 <= m < recursion_list@.len() implies issuer_copy.ids().contains(#[trigger] recursion_list@[m]@)
                        && !tmp.ids().contains(recursion_list@[m]@) by {
                        if m == old_list.len() {
                            assert(!was);
                            assert(recursion_list@[m]@ == related@);
                            assert(issuer_copy.ids().contains(related@));
                            if tmp.ids().contains(related@) {
                                lemma_extends_contains(before.ids(), tmp.ids(), related@);
                            }
                        } else {
                            assert(recursion_list@[m] == old_list[m]);
                            assert(before.ids().contains(old_list[m]@));
                            lemma_extends_contains(issuer_copy.ids(), before.ids(), recursion_list@[m]@);
                        }
                    }
                    assert forall|k: int| 0 <= k < issuer_copy.ids().len() implies keys.contains(#[trigger] issuer_copy.ids()[k]) by {
                        if k < before.ids().len() {
                            assert(issuer_copy.ids()[k] == before.ids()[k]);
                        }
                    }
                }
                let l = blank_label(text_chars(t.as_str()).as_slice());
                append_chars(&mut path, l.as_slice());
                proof {
                    if was {
                        assert(path@ =~= p0 + seq!['_', ':'] + tp + decimal_spec(t0.index_of(related@) as nat));
                        assert(views(recursion_list@) =~= r0);
                    } else {
                        assert(path@ =~= p0 + seq!['_', ':'] + tp + decimal_spec(t0.len()));
                        assert(views(recursion_list@) =~= r0.push(related@));
                    }
                }
            },
        }
        if chosen.len() > 0 && lex_lt_exec(chosen.as_slice(), path.as_slice()) {
            stop = true;
        }
        i += 1;
    }
    proof {
        if !stop {
            assert(w == (path@, issuer_copy.ids(), views(recursion_list@)));
        }
        assert(target == rec_walk(w.2, 0, chosen@, cp, cids, tp, w.1, idx@, measure, w.0));
    }
    let mut k: usize = 0;
    while k < recursion_list.len()
        invariant
            idx@.len() - tmp.ids().len() <= measure,
            0 <= k <= recursion_list@.len(),
            cp == canon.prefix@,
            cids == canon.ids(),
            tp == tmp.prefix@,
            sp == string_views(perm@),
            target == try_perm_spec(sp, chosen@, cp, cids, tp, tmp.ids(), idx@, measure),
            rec_walk(views(recursion_list@), k as int, chosen@, cp, cids, tp, issuer_copy.ids(), idx@, measure, path@)
                == target,
            canon.wf(),
            index_wf(idx@),
            keys == index_keys(idx@),
            idx@.len() < u64::MAX,
            issuer_ok(*tmp, tmp.prefix@, idx@),
            issuer_ok(issuer_copy, tmp.prefix@, idx@),
            extends(issuer_copy.ids(), tmp.ids()),
            fresh_in(recursion_list@, issuer_copy.ids(), tmp.ids()),
        decreases recursion_list@.len() - k,
    {
        let related = &recursion_list[k];
        proof {
            assert(recursion_list@[k as int] == recursion_list@[k as int]);
            assert(issuer_copy.ids().contains(recursion_list@[k as int]@));
            lemma_extends_longer(issuer_copy.ids(), tmp.ids(), related@);
            lemma_within_len(issuer_copy.ids(), keys);
        }
        let ghost before = issuer_copy;
        let ghost p0 = path@;
        let ghost m2 = idx@.len() - issuer_copy.ids().len();
        assert(views(recursion_list@)[k as int] == related@);
        let (result_hash, result_issuer) = hash_n_degree_quads(related.as_str(), canon, &mut issuer_copy, idx, Ghost(m2));
        proof {
            lemma_extends_trans(issuer_copy.ids(), before.ids(), tmp.ids());
            assert forall|m: int| 0 <= m < recursion_list@.len() implies issuer_copy.ids().contains(#[trigger] recursion_list@[m]@)
                && !tmp.ids().contains(recursion_list@[m]@) by {
                lemma_extends_contains(issuer_copy.ids(), before.ids(), recursion_list@[m]@);
            }
        }
        path.push('<');
        let rh = text_chars(result_hash.as_str());
        append_chars(&mut path, rh.as_slice());
        path.push('>');
        issuer_copy = result_issuer;
        proof {
            assert(path@ =~= p0 + seq!['<'] + result_hash@ + seq!['>']);
            assert(0 <= m2 < measure);
        }
        if chosen.len() > 0 && lex_lt_exec(chosen.as_slice(), path.as_slice()) {
            proof {
                assert(rec_walk(views(recursion_list@), k as int, chosen@, cp, cids, tp, before.ids(), idx@, measure, p0)
                    is None);
            }
            return None;
        }
        k += 1;
    }
    Some((path, issuer_copy))
}

/// Steps 5.3 to 5.6 of Hash N-Degree Quads for one group of related blank
/// nodes: the smallest path over all orderings of the group; `tmp` becomes
/// the issuer that produced it.
fn process_group(list: &Vec<String>, canon: &IdentifierIssuer, tmp: &mut IdentifierIssuer,
    idx: &Vec<(String, Vec<Quad>)>, Ghost(measure): Ghost<int>) -> (r: Vec<char>)
    requires
        idx@.len() - old(tmp).ids().len() <= measure,
        canon.wf(),
        issuer_ok(*old(tmp), old(tmp).prefix@, idx@),
        index_wf(idx@),
        idx@.len() < u64::MAX,
        forall|m: int| 0 <= m < list@.len() ==> index_keys(idx@).contains(#[trigger] list@[m]@),
    ensures
        issuer_ok(*final(tmp), old(tmp).prefix@, idx@),
        extends(final(tmp).ids(), old(tmp).ids()),
        (r@, final(tmp).ids()) == best_path(perms_spec(string_views(list@)), 0, canon.prefix@, canon.ids(),
            old(tmp).prefix@, old(tmp).ids(), idx@, measure, Seq::empty(), None),
    decreases measure, 1int,
{
    let ghost keys = index_keys(idx@);
    let ghost ps = perms_spec(string_views(list@));
    let ghost target = best_path(ps, 0, canon.prefix@, canon.ids(), old(tmp).prefix@, old(tmp).ids(), idx@, measure,
        Seq::empty(), None);
    let perms = permutations(list.as_slice());
    proof {
        lemma_perms_members(string_views(list@));
    }
    let mut chosen: Vec<char> = Vec::new();
    let mut chosen_issuer: Option<IdentifierIssuer> = None;
    assert(chosen@ =~= Seq::<char>::empty());
    let mut p: usize = 0;
    while p < perms.len()
        invariant
            idx@.len() - old(tmp).ids().len() <= measure,
            0 <= p <= perms@.len(),
            ps == perms_spec(string_views(list@)),
            best_path(ps, p as int, canon.prefix@, canon.ids(), old(tmp).prefix@, old(tmp).ids(), idx@, measure,
                chosen@, opt_ids(chosen_issuer)) == target,
            canon.wf(),
            issuer_ok(*tmp, old(tmp).prefix@, idx@),
            *tmp == *old(tmp),
            index_wf(idx@),
            keys == index_keys(idx@),
            idx@.len() < u64::MAX,
            forall|m: int| 0 <= m < list@.len() ==> keys.contains(#[trigger] list@[m]@),
            perms@.len() == perms_spec(string_views(list@)).len(),
            forall|k: int| 0 <= k < perms@.len() ==> #[trigger] string_views(perms@[k]@) == perms_spec(string_views(list@))[k],
            forall|k: int, j: int| 0 <= k < perms_spec(string_views(list@)).len() && 0 <= j < perms_spec(string_views(list@))[k].len()
                ==> string_views(list@).contains(#[trigger] perms_spec(string_views(list@))[k][j]),
            chosen_issuer matches Some(ci) ==> issuer_ok(ci, old(tmp).prefix@, idx@) && extends(ci.ids(), old(tmp).ids()),
        decreases perms@.len() - p,
    {
        let perm = &perms[p];
        proof {
            assert forall|m: int| 0 <= m < perm@.len() implies keys.contains(#[trigger] perm@[m]@) by {
                assert(string_views(perm@)[m] == perms_spec(string_views(list@))[p as int][m]);
                let x = perm@[m]@;
                assert(string_views(list@).contains(x));
                let j = choose|j: int| 0 <= j < string_views(list@).len() && string_views(list@)[j] == x;
                assert(keys.contains(list@[j]@));
            }
        }
        assert(string_views(perm@) == ps[p as int]);
        match try_permutation(perm, &chosen, canon, tmp, idx, Ghost(measure)) {
            None => {},
            Some((path, iss)) => {
                if chosen.len() == 0 || lex_lt_exec(path.as_slice(), chosen.as_slice()) {
                    chosen = path;
                    chosen_issuer = Some(iss);
                }
            },
        }
        p += 1;
    }
    match chosen_issuer {
        Some(ci) => {
            *tmp = ci;
        },
        None => {
            proof {
                assert(tmp.ids().subrange(0, tmp.ids().len() as int) =~= tmp.ids());
            }
        },
    }
    chosen
}

/// Hash N-Degree Quads (RDFC-1.0, Section 4.8) for blank node `id`: the hash
/// and the temporary issuer after it; `tmp_issuer` is left equal to that issuer.
/// The issuer only grows: it keeps every identifier already issued.
fn hash_n_degree_quads(id: &str, canon_issuer: &IdentifierIssuer, tmp_issuer: &mut IdentifierIssuer,
    bn_to_quads: &Vec<(String, Vec<Quad>)>, Ghost(measure): Ghost<int>) -> (r: (String, IdentifierIssuer))
    requires
        measure == bn_to_quads@.len() - old(tmp_issuer).ids().len(),
        canon_issuer.wf(),
        issuer_ok(*old(tmp_issuer), old(tmp_issuer).prefix@, bn_to_quads@),
        index_wf(bn_to_quads@),
        bn_to_quads@.len() < u64::MAX,
    ensures
        issuer_ok(*final(tmp_issuer), old(tmp_issuer).prefix@, bn_to_quads@),
        extends(final(tmp_issuer).ids(), old(tmp_issuer).ids()),
        issuer_ok(r.1, old(tmp_issuer).prefix@, bn_to_quads@),
        r.1.ids() == final(tmp_issuer).ids(),
        (r.0@, r.1.ids()) == hnd_spec(id@, canon_issuer.prefix@, canon_issuer.ids(), old(tmp_issuer).prefix@,
            old(tmp_issuer).ids(), bn_to_quads@, measure),
    decreases measure, 2int,
{
    let idx = bn_to_quads;
    let ghost keys = index_keys(idx@);
    let ghost (cp, cids, tp, t0) = (canon_issuer.prefix@, canon_issuer.ids(), tmp_issuer.prefix@, tmp_issuer.ids());
    let key = id.to_owned();
    let k = match find_key(idx, &key) {
        None => {
            let e: Vec<char> = Vec::new();
            let h = sha256_hex(e.as_slice());
            proof {
                assert(tmp_issuer.ids().subrange(0, tmp_issuer.ids().len() as int) =~= tmp_issuer.ids());
            }
            let copy = tmp_issuer.duplicate();
            return (text_string(h.as_slice()), copy);
        },
        Some(k) => k,
    };
    let list = &idx[k].1;
    let groups = related_groups(&key, list, canon_issuer, tmp_issuer, idx);
    let ghost gv = groups_view(groups@);
    proof {
        assert(keys[k as int] == id@);
        assert(keys.index_of(id@) == k as int) by {
            keys.index_of_first_ensures(id@);
        }
        assert(index_lookup(idx@, id@) == quad_views(list@));
    }
    let mut data: Vec<char> = Vec::new();
    let mut g: usize = 0;
    proof {
        assert(tmp_issuer.ids().subrange(0, tmp_issuer.ids().len() as int) =~= tmp_issuer.ids());
        assert(data@ =~= Seq::<char>::empty());
    }
    while g < groups.len()
        invariant
            measure == bn_to_quads@.len() - old(tmp_issuer).ids().len(),
            gv == groups_view(groups@),
            cp == canon_issuer.prefix@,
            cids == canon_issuer.ids(),
            tp == old(tmp_issuer).prefix@,
            t0 == old(tmp_issuer).ids(),
            groups_walk(gv, g as int, cp, cids, tp, tmp_issuer.ids(), idx@, measure, data@)
                == groups_walk(gv, 0, cp, cids, tp, t0, idx@, measure, Seq::empty()),
            bn_to_quads == idx,
            0 <= g <= groups@.len(),
            canon_issuer.wf(),
            index_wf(idx@),
            keys == index_keys(idx@),
            idx@.len() < u64::MAX,
            groups_within(groups@, keys),
            issuer_ok(*tmp_issuer, old(tmp_issuer).prefix@, idx@),
            extends(tmp_issuer.ids(), old(tmp_issuer).ids()),
        decreases groups@.len() - g,
    {
        append_chars(&mut data, groups[g].0.as_slice());
        proof {
            assert forall|m: int| 0 <= m < groups@[g as int].1@.len() implies keys.contains(#[trigger] groups@[g as int].1@[m]@) by {
            }
        }
        let ghost before = *tmp_issuer;
        let ghost d0 = data@;
        proof {
            lemma_within_len(tmp_issuer.ids(), keys);
            assert(tmp_issuer.ids().len() >= old(tmp_issuer).ids().len());
            assert(idx@.len() - tmp_issuer.ids().len() >= 0);
        }
        let path = process_group(&groups[g].1, canon_issuer, tmp_issuer, idx, Ghost(measure));
        proof {
            lemma_extends_trans(tmp_issuer.ids(), before.ids(), old(tmp_issuer).ids());
            assert(gv[g as int].1 == string_views(groups@[g as int].1@));
        }
        append_chars(&mut data, path.as_slice());
        g += 1;
    }
    let h = sha256_hex(data.as_slice());
    let copy = tmp_issuer.duplicate();
    (text_string(h.as_slice()), copy)
}

} // verus!

verus! {

// ---------------------------------------------------------------------------
// The canonicalization algorithm (RDFC-1.0, Section 4.4)
// ---------------------------------------------------------------------------

/// The canonical label of blank node b under the issuer: its issued
/// identifier, or "MISSING_" and b when none was issued.
pub open spec fn canon_label(iss: IdentifierIssuer, b: Seq<char>) -> Seq<char> {
    if iss.ids().contains(b) { iss.issued_name(iss.ids().index_of(b)) } else { "MISSING_"@ + b }
}

pub open spec fn relabel_canon_term(t: TermView, iss: IdentifierIssuer) -> TermView {
    match t {
        TermView::Blank(b) => TermView::Blank(canon_label(iss, b)),
        _ => t,
    }
}

pub open spec fn relabel_canon(q: QuadView, iss: IdentifierIssuer) -> QuadView {
    QuadView {
        subject: relabel_canon_term(q.subject, iss),
        predicate: relabel_canon_term(q.predicate, iss),
        object: relabel_canon_term(q.object, iss),
        graph_name: relabel_canon_term(q.graph_name, iss),
    }
}

/// The canonical form of a dataset under a canonical issuer: its quads with
/// blank nodes relabelled, as N-Quads lines in code point order.
pub open spec fn canonical_text(qs: Seq<QuadView>, iss: IdentifierIssuer) -> Seq<char> {
    concat_spec(sort_spec(Seq::new(qs.len(), |k: int| quad_text(relabel_canon(qs[k], iss)))))
}

fn relabel_term_canonical(t: &Term, canon: &IdentifierIssuer) -> (r: Term)
    requires
        canon.wf(),
    ensures
        r@ == relabel_canon_term(t@, *canon),
{
    match t {
        Term::Blank(b) => {
            match canon.get(b.as_str()) {
                Some(c) => Term::Blank(c.to_owned()),
                None => {
                    let m = lit("MISSING_");
                    Term::Blank(concat2(&m, b))
                },
            }
        },
        _ => copy_term(t),
    }
}

fn relabel_canonical(q: &Quad, canon: &IdentifierIssuer) -> (r: Quad)
    requires
        canon.wf(),
    ensures
        r@ == relabel_canon(q@, *canon),
{
    Quad {
        subject: relabel_term_canonical(&q.subject, canon),
        predicate: relabel_term_canonical(&q.predicate, canon),
        object: relabel_term_canonical(&q.object, canon),
        graph_name: relabel_term_canonical(&q.graph_name, canon),
    }
}

/// Every blank label written at a position before n is one of the keys up to n.
proof fn lemma_key_contains(ps: Seq<(TermView, QuadView)>, n: int, i: int, c: Seq<char>)
    requires
        0 <= i < n,
        ps[i].0 == TermView::Blank(c),
    ensures
        keys_upto(ps, n).contains(c),
    decreases n,
{
    let k = keys_upto(ps, n - 1);
    if i < n - 1 {
        lemma_key_contains(ps, n - 1, i, c);
        let j = choose|j: int| 0 <= j < k.len() && k[j] == c;
        match ps[n - 1].0 {
            TermView::Blank(b) => {
                if !k.contains(b) {
                    assert(k.push(b)[j] == c);
                }
            },
            _ => {},
        }
    } else {
        if !k.contains(c) {
            assert(k.push(c)[k.len() as int] == c);
        }
    }
}

/// Every quad listed for b up to position n is the quad of some position before n.
proof fn lemma_mention_source(ps: Seq<(TermView, QuadView)>, n: int, b: Seq<char>, m: int)
    requires
        0 <= m < mentions_upto(ps, n, b).len(),
    ensures
        exists|i: int| 0 <= i < n && #[trigger] ps[i].1 == mentions_upto(ps, n, b)[m],
    decreases n,
{
    if n > 0 {
        let prev = mentions_upto(ps, n - 1, b);
        if m < prev.len() {
            lemma_mention_source(ps, n - 1, b, m);
            let i = choose|i: int| 0 <= i < n - 1 && #[trigger] ps[i].1 == prev[m];
            assert(ps[i].1 == mentions_upto(ps, n, b)[m]);
        } else {
            assert(ps[n - 1].1 == mentions_upto(ps, n, b)[m]);
        }
    }
}

/// The index of a dataset is well formed.
proof fn lemma_index_wf(idx: Seq<(String, Vec<Quad>)>, qs: Seq<QuadView>)
    requires
        index_of_dataset(idx, qs),
    ensures
        index_wf(idx),
{
    let ps = term_pairs(qs);
    let n = 4 * qs.len();
    lemma_keys_no_dup(ps, n as int);
    assert forall|k: int, j: int, t: int| 0 <= k < idx.len() && 0 <= j < idx[k].1@.len() && 0 <= t < 4 implies
        (#[trigger] quad_term(idx[k].1@[j]@, t) matches TermView::Blank(c) ==> index_keys(idx).contains(c)) by {
        let q = idx[k].1@[j]@;
        assert(quad_views(idx[k].1@)[j] == q);
        assert(quad_views(idx[k].1@) == mentions(qs, idx[k].0@));
        lemma_mention_source(ps, n as int, idx[k].0@, j);
        let i = choose|i: int| 0 <= i < n && #[trigger] ps[i].1 == mentions_upto(ps, n as int, idx[k].0@)[j];
        let qi = i / 4;
        lemma_block_split(qi, t, 4);
        vstd::arithmetic::div_mod::lemma_fundamental_div_mod(i, 4);
        assert(ps[i].1 == qs[qi]);
        assert(0 <= 4 * qi + t < n);
        assert(ps[4 * qi + t].0 == quad_term(qs[qi], t));
        match quad_term(q, t) {
            TermView::Blank(c) => {
                lemma_key_contains(ps, n as int, 4 * qi + t, c);
            },
            _ => {},
        }
    }
}

proof fn lemma_insert_members(s: Seq<Seq<char>>, x: Seq<char>)
    ensures
        insert_sorted(s, x).len() == s.len() + 1,
        forall|k: int| 0 <= k < insert_sorted(s, x).len() ==>
            #[trigger] insert_sorted(s, x)[k] == x || s.contains(insert_sorted(s, x)[k]),
    decreases s.len(),
{
    if s.len() > 0 && lex_lt(x, s.last()) {
        lemma_insert_members(s.drop_last(), x);
        let r = insert_sorted(s.drop_last(), x);
        assert forall|k: int| 0 <= k < insert_sorted(s, x).len() implies
            #[trigger] insert_sorted(s, x)[k] == x || s.contains(insert_sorted(s, x)[k]) by {
            if k < r.len() {
                if r[k] != x {
                    let j = choose|j: int| 0 <= j < s.drop_last().len() && s.drop_last()[j] == r[k];
                    assert(s[j] == r[k]);
                }
            } else {
                assert(s[s.len() - 1] == s.last());
            }
        }
    } else {
        assert forall|k: int| 0 <= k < insert_sorted(s, x).len() implies
            #[trigger] insert_sorted(s, x)[k] == x || s.contains(insert_sorted(s, x)[k]) by {
            if k < s.len() {
                assert(s[k] == insert_sorted(s, x)[k]);
            }
        }
    }
}

/// The code point of a char, as a u32, is the char's value.
proof fn lemma_char_code(c: char)
    ensures
        (c as u32) as int == c as int,
{
}

/// No text of s comes after a later one in code point order.
pub open spec fn sorted_texts(s: Seq<Seq<char>>) -> bool {
    forall|i: int, j: int| 0 <= i < j < s.len() ==> !lex_lt(#[trigger] s[j], #[trigger] s[i])
}

/// Code point order is a strict weak order: asymmetric, and a < c implies
/// a < b or b < c.
pub proof fn lemma_lex_order(a: Seq<char>, b: Seq<char>, c: Seq<char>)
    ensures
        lex_lt(a, b) ==> !lex_lt(b, a),
        lex_lt(a, c) ==> lex_lt(a, b) || lex_lt(b, c),
    decreases a.len(),
{
    if a.len() > 0 && b.len() > 0 && c.len() > 0 {
        lemma_char_code(a[0]);
        lemma_char_code(b[0]);
        lemma_char_code(c[0]);
        if a[0] == b[0] && b[0] == c[0] {
            lemma_lex_order(a.drop_first(), b.drop_first(), c.drop_first());
        } else if a[0] == b[0] {
            lemma_lex_order(a.drop_first(), b.drop_first(), b.drop_first());
        }
    } else if a.len() > 0 && b.len() > 0 {
        lemma_char_code(a[0]);
        lemma_char_code(b[0]);
        if a[0] == b[0] {
            lemma_lex_order(a.drop_first(), b.drop_first(), b.drop_first());
        }
    }
}

proof fn lemma_insert_sorted_sorted(s: Seq<Seq<char>>, x: Seq<char>)
    requires
        sorted_texts(s),
    ensures
        sorted_texts(insert_sorted(s, x)),
    decreases s.len(),
{
    lemma_insert_members(s, x);
    let r = insert_sorted(s, x);
    if s.len() == 0 || !lex_lt(x, s.last()) {
        assert forall|i: int, j: int| 0 <= i < j < r.len() implies !lex_lt(#[trigger] r[j], #[trigger] r[i]) by {
            if j == s.len() {
                assert(r[i] == s[i]);
                if i < s.len() - 1 {
                    assert(!lex_lt(s[s.len() - 1], s[i]));
                }
                lemma_lex_order(x, s.last(), s[i]);
            } else {
                assert(r[i] == s[i] && r[j] == s[j]);
            }
        }
    } else {
        let p = s.drop_last();
        assert(sorted_texts(p)) by {
            assert forall|i: int, j: int| 0 <= i < j < p.len() implies !lex_lt(#[trigger] p[j], #[trigger] p[i]) by {
                assert(p[i] == s[i] && p[j] == s[j]);
            }
        }
        lemma_insert_sorted_sorted(p, x);
        lemma_insert_members(p, x);
        let q = insert_sorted(p, x);
        assert forall|i: int, j: int| 0 <= i < j < r.len() implies !lex_lt(#[trigger] r[j], #[trigger] r[i]) by {
            if j == q.len() {
                let y = q[i];
                assert(r[i] == y);
                if y == x {
                    lemma_lex_order(x, s.last(), s.last());
                } else {
                    assert(p.contains(y));
                    let k = choose|k: int| 0 <= k < p.len() && p[k] == y;
                    assert(s[k] == y);
                    assert(!lex_lt(s[s.len() - 1], s[k]));
                }
            } else {
                assert(r[i] == q[i] && r[j] == q[j]);
            }
        }
    }
}

proof fn lemma_insert_keeps(s: Seq<Seq<char>>, x: Seq<char>)
    ensures
        insert_sorted(s, x).contains(x),
        forall|y: Seq<char>| s.contains(y) ==> #[trigger] insert_sorted(s, x).contains(y),
    decreases s.len(),
{
    if s.len() == 0 || !lex_lt(x, s.last()) {
        assert(s.push(x)[s.len() as int] == x);
        assert forall|y: Seq<char>| s.contains(y) implies #[trigger] insert_sorted(s, x).contains(y) by {
            let k = choose|k: int| 0 <= k < s.len() && s[k] == y;
            assert(s.push(x)[k] == y);
        }
    } else {
        let p = s.drop_last();
        lemma_insert_keeps(p, x);
        let q = insert_sorted(p, x);
        let k0 = choose|k: int| 0 <= k < q.len() && q[k] == x;
        assert(q.push(s.last())[k0] == x);
        assert forall|y: Seq<char>| s.contains(y) implies #[trigger] insert_sorted(s, x).contains(y) by {
            let k = choose|k: int| 0 <= k < s.len() && s[k] == y;
            if k == s.len() - 1 {
                assert(q.push(s.last())[q.len() as int] == y);
            } else {
                assert(p[k] == y);
                assert(p.contains(y));
                assert(q.contains(y));
                let j = choose|j: int| 0 <= j < q.len() && q[j] == y;
                assert(q.push(s.last())[j] == y);
            }
        }
    }
}

/// Sorting keeps every text.
pub proof fn lemma_sort_keeps(s: Seq<Seq<char>>)
    ensures
        forall|y: Seq<char>| s.contains(y) ==> #[trigger] sort_spec(s).contains(y),
    decreases s.len(),
{
    if s.len() > 0 {
        let p = s.drop_last();
        lemma_sort_keeps(p);
        lemma_insert_keeps(sort_spec(p), s.last());
        assert forall|y: Seq<char>| s.contains(y) implies #[trigger] sort_spec(s).contains(y) by {
            let k = choose|k: int| 0 <= k < s.len() && s[k] == y;
            if k < s.len() - 1 {
                assert(p[k] == y);
                assert(p.contains(y));
            }
        }
    }
}

/// Sorting puts the texts in code point order.
pub proof fn lemma_sort_sorted(s: Seq<Seq<char>>)
    ensures
        sorted_texts(sort_spec(s)),
    decreases s.len(),
{
    if s.len() > 0 {
        lemma_sort_sorted(s.drop_last());
        lemma_insert_sorted_sorted(sort_spec(s.drop_last()), s.last());
    }
}


/// Sorting keeps the elements: each element of the result is one of the input.
pub proof fn lemma_sort_members(s: Seq<Seq<char>>)
    ensures
        sort_spec(s).len() == s.len(),
        forall|k: int| 0 <= k < sort_spec(s).len() ==> s.contains(#[trigger] sort_spec(s)[k]),
    decreases s.len(),
{
    if s.len() > 0 {
        lemma_sort_members(s.drop_last());
        let p = sort_spec(s.drop_last());
        lemma_insert_members(p, s.last());
        assert forall|k: int| 0 <= k < sort_spec(s).len() implies s.contains(#[trigger] sort_spec(s)[k]) by {
            let y = sort_spec(s)[k];
            if y == s.last() {
                assert(s[s.len() - 1] == y);
            } else {
                assert(p.contains(y));
                let j = choose|j: int| 0 <= j < p.len() && p[j] == y;
                assert(s.drop_last().contains(p[j]));
                let i = choose|i: int| 0 <= i < s.drop_last().len() && s.drop_last()[i] == y;
                assert(s[i] == y);
            }
        }
    }
}

/// Sorts labels in code point order.
fn sort_labels(v: &Vec<String>) -> (r: Vec<String>)
    ensures
        r@.len() == v@.len(),
        string_views(r@) == sort_spec(string_views(v@)),
        forall|k: int| 0 <= k < r@.len() ==> string_views(v@).contains(#[trigger] r@[k]@),
        forall|k: int| 0 <= k < v@.len() ==> string_views(r@).contains(#[trigger] v@[k]@),
{
    let mut t: Vec<Vec<char>> = Vec::new();
    let mut i: usize = 0;
    while i < v.len()
        invariant
            0 <= i <= v@.len(),
            texts(t@) == string_views(v@).subrange(0, i as int),
        decreases v@.len() - i,
    {
        let c = text_chars(v[i].as_str());
        let ghost before = texts(t@);
        t.push(c);
        assert(texts(t@) =~= before.push(v@[i as int]@));
        assert(texts(t@) =~= string_views(v@).subrange(0, i + 1));
        i += 1;
    }
    assert(string_views(v@).subrange(0, v@.len() as int) =~= string_views(v@));
    let sorted = sort_texts(t);
    proof {
        lemma_sort_members(string_views(v@));
    }
    let mut r: Vec<String> = Vec::new();
    let mut k: usize = 0;
    while k < sorted.len()
        invariant
            0 <= k <= sorted@.len(),
            texts(sorted@) == sort_spec(string_views(v@)),
            sort_spec(string_views(v@)).len() == v@.len(),
            forall|j: int| 0 <= j < sort_spec(string_views(v@)).len() ==>
                string_views(v@).contains(#[trigger] sort_spec(string_views(v@))[j]),
            r@.len() == k,
            forall|j: int| 0 <= j < k ==> #[trigger] r@[j]@ == sort_spec(string_views(v@))[j],
        decreases sorted@.len() - k,
    {
        assert(sorted@[k as int]@ == texts(sorted@)[k as int]);
        r.push(text_string(sorted[k].as_slice()));
        k += 1;
    }
    proof {
        assert forall|j: int| 0 <= j < r@.len() implies string_views(v@).contains(#[trigger] r@[j]@) by {
            assert(r@[j]@ == sort_spec(string_views(v@))[j]);
        }
        assert(string_views(r@) =~= sort_spec(string_views(v@)));
        lemma_sort_keeps(string_views(v@));
        assert forall|k: int| 0 <= k < v@.len() implies string_views(r@).contains(#[trigger] v@[k]@) by {
            assert(string_views(v@)[k] == v@[k]@);
        }
    }
    r
}

/// The results of n-degree hashes as texts: each hash with the identifiers of
/// its issuer.
pub open spec fn hp_view(v: Seq<(Vec<char>, IdentifierIssuer)>) -> Seq<(Seq<char>, Seq<Seq<char>>)> {
    Seq::new(v.len(), |k: int| (v[k].0@, v[k].1.ids()))
}

/// x inserted into out after every result whose hash does not come after its own.
pub open spec fn hp_insert(out: Seq<(Seq<char>, Seq<Seq<char>>)>, x: (Seq<char>, Seq<Seq<char>>))
    -> Seq<(Seq<char>, Seq<Seq<char>>)>
    decreases out.len(),
{
    if out.len() == 0 || !lex_lt(x.0, out.last().0) {
        out.push(x)
    } else {
        hp_insert(out.drop_last(), x).push(out.last())
    }
}

/// The results in hash order, equal hashes in the order in which they came.
pub open spec fn hp_sort(v: Seq<(Seq<char>, Seq<Seq<char>>)>) -> Seq<(Seq<char>, Seq<Seq<char>>)>
    decreases v.len(),
{
    if v.len() == 0 { v } else { hp_insert(hp_sort(v.drop_last()), v.last()) }
}

proof fn lemma_hp_insert_at(s: Seq<(Seq<char>, Seq<Seq<char>>)>, x: (Seq<char>, Seq<Seq<char>>), k: int)
    requires
        0 <= k <= s.len(),
        forall|j: int| k <= j < s.len() ==> lex_lt(x.0, #[trigger] s[j].0),
        k == 0 || !lex_lt(x.0, s[k - 1].0),
    ensures
        hp_insert(s, x) == s.subrange(0, k).push(x) + s.subrange(k, s.len() as int),
    decreases s.len(),
{
    if s.len() == k {
        assert(s.subrange(0, k) =~= s);
        assert(s.subrange(k, s.len() as int) =~= Seq::<(Seq<char>, Seq<Seq<char>>)>::empty());
        assert(s.push(x) =~= s.subrange(0, k).push(x) + s.subrange(k, s.len() as int));
    } else {
        assert(lex_lt(x.0, s[s.len() - 1].0));
        lemma_hp_insert_at(s.drop_last(), x, k);
        assert(hp_insert(s.drop_last(), x).push(s.last()) =~= s.subrange(0, k).push(x) + s.subrange(k, s.len() as int));
    }
}

/// Orders the results of the n-degree hashes by hash, keeping the order of
/// equal hashes (a stable insertion sort).
fn sort_hash_paths(v: Vec<(Vec<char>, IdentifierIssuer)>, Ghost(idx): Ghost<Seq<(String, Vec<Quad>)>>)
    -> (r: Vec<(Vec<char>, IdentifierIssuer)>)
    requires
        forall|k: int| 0 <= k < v@.len() ==> issuer_ok(#[trigger] v@[k].1, "b"@, idx),
    ensures
        forall|k: int| 0 <= k < r@.len() ==> issuer_ok(#[trigger] r@[k].1, "b"@, idx),
        forall|k: int| 0 <= k < v@.len() ==> r@.contains(#[trigger] v@[k]),
        hp_view(r@) == hp_sort(hp_view(v@)),
{
    let ghost v0 = v@;
    let ghost hv = hp_view(v0);
    let mut v = v;
    let mut out: Vec<(Vec<char>, IdentifierIssuer)> = Vec::new();
    let mut rev: Vec<(Vec<char>, IdentifierIssuer)> = Vec::new();
    while v.len() > 0
        invariant
            forall|k: int| 0 <= k < v@.len() ==> issuer_ok(#[trigger] v@[k].1, "b"@, idx),
            forall|k: int| 0 <= k < rev@.len() ==> issuer_ok(#[trigger] rev@[k].1, "b"@, idx),
            forall|k: int| 0 <= k < v0.len() ==> v@.contains(#[trigger] v0[k]) || rev@.contains(v0[k]),
            rev@.len() + v@.len() == v0.len(),
            v@ == v0.subrange(0, v@.len() as int),
            forall|j: int| 0 <= j < rev@.len() ==> #[trigger] rev@[j] == v0[v0.len() - 1 - j],
        decreases v@.len(),
    {
        let ghost vb = v@;
        let ghost rb = rev@;
        let x = v.pop().unwrap();
        rev.push(x);
        proof {
            assert(v@ =~= v0.subrange(0, v@.len() as int));
            assert(rev@[rb.len() as int] == v0[v0.len() - 1 - rb.len()]);
            assert forall|k: int| 0 <= k < v0.len() implies v@.contains(#[trigger] v0[k]) || rev@.contains(v0[k]) by {
                if vb.contains(v0[k]) {
                    let j = choose|j: int| 0 <= j < vb.len() && vb[j] == v0[k];
                    if j == vb.len() - 1 {
                        assert(rev@[rb.len() as int] == v0[k]);
                    } else {
                        assert(v@[j] == v0[k]);
                    }
                } else {
                    let j = choose|j: int| 0 <= j < rb.len() && rb[j] == v0[k];
                    assert(rev@[j] == v0[k]);
                }
            }
        }
    }
    while rev.len() > 0
        invariant
            forall|k: int| 0 <= k < rev@.len() ==> issuer_ok(#[trigger] rev@[k].1, "b"@, idx),
            forall|k: int| 0 <= k < out@.len() ==> issuer_ok(#[trigger] out@[k].1, "b"@, idx),
            forall|k: int| 0 <= k < v0.len() ==> rev@.contains(#[trigger] v0[k]) || out@.contains(v0[k]),
            rev@.len() <= v0.len(),
            hv == hp_view(v0),
            forall|j: int| 0 <= j < rev@.len() ==> #[trigger] rev@[j] == v0[v0.len() - 1 - j],
            hp_view(out@) == hp_sort(hv.subrange(0, v0.len() - rev@.len())),
        decreases rev@.len(),
    {
        let ghost rb = rev@;
        let ghost ob = out@;
        let ghost n = v0.len() - rev@.len();
        let x = rev.pop().unwrap();
        proof {
            assert(x == v0[n]);
        }
        let mut k = out.len();
        while k > 0 && lex_lt_exec(x.0.as_slice(), out[k - 1].0.as_slice())
            invariant
                0 <= k <= out@.len(),
                forall|j: int| k <= j < out@.len() ==> lex_lt(x.0@, #[trigger] hp_view(out@)[j].0),
            decreases k,
        {
            k -= 1;
        }
        let ghost o = out@;
        out.insert(k, x);
        proof {
            let xv = (x.0@, x.1.ids());
            lemma_hp_insert_at(hp_view(o), xv, k as int);
            assert(hp_view(out@) =~= hp_view(o).subrange(0, k as int).push(xv) + hp_view(o).subrange(k as int, o.len() as int));
            let pre = hv.subrange(0, n + 1);
            assert(pre.drop_last() =~= hv.subrange(0, n));
            assert(pre.last() == xv);
            assert(hp_view(out@) == hp_sort(pre));
            assert forall|j: int| 0 <= j < out@.len() implies issuer_ok(#[trigger] out@[j].1, "b"@, idx) by {
                if j < k {
                    assert(out@[j] == o[j]);
                } else if j > k {
                    assert(out@[j] == o[j - 1]);
                }
            }
            assert forall|kk: int| 0 <= kk < v0.len() implies rev@.contains(#[trigger] v0[kk]) || out@.contains(v0[kk]) by {
                if rb.contains(v0[kk]) {
                    let j = choose|j: int| 0 <= j < rb.len() && rb[j] == v0[kk];
                    if j == rb.len() - 1 {
                        assert(out@[k as int] == v0[kk]);
                    } else {
                        assert(rev@[j] == v0[kk]);
                    }
                } else {
                    let j = choose|j: int| 0 <= j < ob.len() && ob[j] == v0[kk];
                    if j < k {
                        assert(out@[j] == v0[kk]);
                    } else {
                        assert(out@[j + 1] == v0[kk]);
                    }
                }
            }
        }
    }
    assert(hv.subrange(0, v0.len() as int) =~= hv);
    out
}

/// The first b labels of the index grouped by first-degree hash (Step 3 of the
/// canonicalization algorithm): the groups in hash order, each listing its
/// labels in index order.
pub open spec fn fd_groups(idx: Seq<(String, Vec<Quad>)>, b: int) -> Seq<(Seq<char>, Seq<Seq<char>>)>
    decreases b,
{
    if b <= 0 {
        Seq::empty()
    } else {
        let id = index_keys(idx)[b - 1];
        group_add(fd_groups(idx, b - 1), first_degree_hash_spec(index_lookup(idx, id), id), id)
    }
}

/// The identifiers of an issuer after it is asked for x: unchanged when x
/// already has one, else x appended.
pub open spec fn issue_spec(ids: Seq<Seq<char>>, x: Seq<char>) -> Seq<Seq<char>> {
    if ids.contains(x) { ids } else { ids.push(x) }
}

/// Step 4 over the first g groups: the label of each group of one label is
/// issued a canonical identifier, in group order.
pub open spec fn unique_ids(groups: Seq<(Seq<char>, Seq<Seq<char>>)>, g: int) -> Seq<Seq<char>>
    decreases g,
{
    if g <= 0 {
        Seq::empty()
    } else {
        let prev = unique_ids(groups, g - 1);
        if groups[g - 1].1.len() == 1 { issue_spec(prev, groups[g - 1].1[0]) } else { prev }
    }
}

/// The groups of more than one label among the first g, each in code point order.
pub open spec fn shared_lists(groups: Seq<(Seq<char>, Seq<Seq<char>>)>, g: int) -> Seq<Seq<Seq<char>>>
    decreases g,
{
    if g <= 0 {
        Seq::empty()
    } else {
        let prev = shared_lists(groups, g - 1);
        if groups[g - 1].1.len() != 1 { prev.push(sort_spec(groups[g - 1].1)) } else { prev }
    }
}

/// Step 5.2 over the first j labels of a list: for each label without a
/// canonical identifier in cids, its n-degree hash computed with a fresh
/// temporary issuer that has issued an identifier for it alone.
pub open spec fn nd_results(list: Seq<Seq<char>>, j: int, cids: Seq<Seq<char>>, idx: Seq<(String, Vec<Quad>)>)
    -> Seq<(Seq<char>, Seq<Seq<char>>)>
    decreases j,
{
    if j <= 0 {
        Seq::empty()
    } else {
        let prev = nd_results(list, j - 1, cids, idx);
        let x = list[j - 1];
        if cids.contains(x) {
            prev
        } else {
            prev.push(hnd_spec(x, "c14n"@, cids, "b"@, seq![x], idx, idx.len() - 1))
        }
    }
}

/// The identifiers after the first o labels of s are issued in turn.
pub open spec fn issue_all(ids: Seq<Seq<char>>, s: Seq<Seq<char>>, o: int) -> Seq<Seq<char>>
    decreases o,
{
    if o <= 0 { ids } else { issue_spec(issue_all(ids, s, o - 1), s[o - 1]) }
}

/// Step 5.3 over the first e results: the labels of each result's temporary
/// issuer are issued canonical identifiers, in the order that issuer issued them.
pub open spec fn issue_results(ids: Seq<Seq<char>>, rs: Seq<(Seq<char>, Seq<Seq<char>>)>, e: int) -> Seq<Seq<char>>
    decreases e,
{
    if e <= 0 {
        ids
    } else {
        let prev = issue_results(ids, rs, e - 1);
        issue_all(prev, rs[e - 1].1, rs[e - 1].1.len() as int)
    }
}

/// Step 5 over the first u lists: the n-degree hashes of each list, in hash
/// order, decide the order in which its labels are issued.
pub open spec fn shared_walk(lists: Seq<Seq<Seq<char>>>, u: int, ids: Seq<Seq<char>>, idx: Seq<(String, Vec<Quad>)>)
    -> Seq<Seq<char>>
    decreases u,
{
    if u <= 0 {
        ids
    } else {
        let prev = shared_walk(lists, u - 1, ids, idx);
        let l = lists[u - 1];
        let rs = hp_sort(nd_results(l, l.len() as int, prev, idx));
        issue_results(prev, rs, rs.len() as int)
    }
}

/// The blank nodes of the index in the order in which the canonical issuer
/// issues their identifiers (Steps 3 to 5 of the canonicalization algorithm).
pub open spec fn canonical_ids(idx: Seq<(String, Vec<Quad>)>) -> Seq<Seq<char>> {
    let groups = fd_groups(idx, idx.len() as int);
    let lists = shared_lists(groups, groups.len() as int);
    shared_walk(lists, lists.len() as int, unique_ids(groups, groups.len() as int), idx)
}

/// The labels of each list.
pub open spec fn lists_view(nu: Seq<Vec<String>>) -> Seq<Seq<Seq<char>>> {
    Seq::new(nu.len(), |k: int| string_views(nu[k]@))
}

} // verus!

verus! {

/// Canonicalizes a dataset (RDFC-1.0): blank nodes are relabelled _:c14n0,
/// _:c14n1, ... by a canonical issuer, and the N-Quads lines of the relabelled
/// quads are returned in code point order. The issuer is built from the
/// first-degree hashes of the blank nodes, and for blank nodes whose
/// first-degree hashes collide, from their n-degree hashes: it issues its
/// identifiers in the order `canonical_ids` gives for the dataset's index,
/// which that function reads only through the labels and the quads that
/// `index_of_dataset` fixes.
pub fn canonicalize(quads: &[Quad]) -> (r: String)
    requires
        4 * quads@.len() < usize::MAX,
    ensures
        exists|iss: IdentifierIssuer, idx: Seq<(String, Vec<Quad>)>| iss.wf() && iss.prefix@ == "c14n"@
            && index_of_dataset(idx, quad_views(quads@))
            && iss.ids() == canonical_ids(idx)
            && within(iss.ids(), blank_keys(quad_views(quads@)))
            && within(blank_keys(quad_views(quads@)), iss.ids())
            && r@ == canonical_text(quad_views(quads@), iss),
{
    let ghost qs = quad_views(quads@);
    // Step 2: blank node to quads.
    let idx = build_index(quads);
    proof {
        lemma_index_wf(idx@, qs);
        lemma_keys_no_dup(term_pairs(qs), 4 * qs.len() as int);
        assert(idx@.len() == index_keys(idx@).len());
        assert(index_keys(idx@) == blank_keys(qs));
        lemma_keys_len(term_pairs(qs), 4 * qs.len() as int);
    }
    let ghost keys = index_keys(idx@);
    let mut canon = IdentifierIssuer::new("c14n");
    // Step 3: first-degree hashes, grouped by hash in code point order.
    let mut groups: Vec<(Vec<char>, Vec<String>)> = Vec::new();
    let mut b: usize = 0;
    assert(groups_view(groups@) =~= fd_groups(idx@, 0));
    while b < idx.len()
        invariant
            0 <= b <= idx@.len(),
            index_wf(idx@),
            keys == index_keys(idx@),
            groups_within(groups@, keys),
            groups_view(groups@) == fd_groups(idx@, b as int),
            forall|bb: int| 0 <= bb < b ==> #[trigger] in_groups(groups@, keys[bb]),
        decreases idx@.len() - b,
    {
        let bn = &idx[b].0;
        let h = hash_first_degree_quads(bn, &idx);
        assert(keys[b as int] == bn@);
        let ghost gb = groups@;
        group_insert(&mut groups, h, bn.clone(), Ghost(keys));
        proof {
            assert forall|bb: int| 0 <= bb < b + 1 implies #[trigger] in_groups(groups@, keys[bb]) by {
                if bb < b {
                    assert(in_groups(gb, keys[bb]));
                }
            }
        }
        b += 1;
    }
    // Step 4: unique hashes get canonical identifiers in hash order.
    let mut non_unique: Vec<Vec<String>> = Vec::new();
    let mut g: usize = 0;
    proof {
        reveal_strlit("c14n");
    }
    let ghost gv = groups_view(groups@);
    assert(lists_view(non_unique@) =~= shared_lists(gv, 0));
    assert(canon.ids() =~= unique_ids(gv, 0));
    while g < groups.len()
        invariant
            0 <= g <= groups@.len(),
            index_wf(idx@),
            keys == index_keys(idx@),
            idx@.len() < usize::MAX,
            groups_within(groups@, keys),
            issuer_ok(canon, "c14n"@, idx@),
            gv == groups_view(groups@),
            canon.ids() == unique_ids(gv, g as int),
            lists_view(non_unique@) == shared_lists(gv, g as int),
            forall|k: int, m: int| 0 <= k < non_unique@.len() && 0 <= m < non_unique@[k]@.len() ==>
                keys.contains(#[trigger] non_unique@[k]@[m]@),
            forall|a: int, m: int| 0 <= a < g && 0 <= m < groups@[a].1@.len() ==>
                canon.ids().contains(#[trigger] groups@[a].1@[m]@) || in_lists(non_unique@, groups@[a].1@[m]@),
        decreases groups@.len() - g,
    {
        let list = &groups[g].1;
        let ghost cb = canon.ids();
        let ghost nb = non_unique@;
        assert(gv[g as int].1 == string_views(list@));
        if list.len() == 1 {
            assert(gv[g as int].1[0] == list@[0]@);
            proof {
                lemma_within_len(canon.ids(), keys);
                assert(keys.contains(groups@[g as int].1@[0]@));
            }
            let ghost before = canon;
            let _ = canon.issue(list[0].as_str());
            proof {
                assert forall|k: int| 0 <= k < canon.ids().len() implies keys.contains(#[trigger] canon.ids()[k]) by {
                    if k < before.ids().len() {
                        assert(canon.ids()[k] == before.ids()[k]);
                    }
                }
                assert(canon.ids().subrange(0, cb.len() as int) =~= cb);
                let x = groups@[g as int].1@[0]@;
                if before.ids().contains(x) {
                    lemma_extends_contains(canon.ids(), before.ids(), x);
                } else {
                    assert(canon.ids()[before.ids().len() as int] == x);
                }
                assert(canon.ids().contains(groups@[g as int].1@[0]@));
            }
        } else {
            let sorted = sort_labels(list);
            proof {
                assert forall|m: int| 0 <= m < sorted@.len() implies keys.contains(#[trigger] sorted@[m]@) by {
                    let j = choose|j: int| 0 <= j < string_views(list@).len() && string_views(list@)[j] == sorted@[m]@;
                    assert(keys.contains(list@[j]@));
                }
            }
            let ghost sv = sorted@;
            non_unique.push(sorted);
            proof {
                assert(lists_view(non_unique@) =~= lists_view(nb).push(sort_spec(gv[g as int].1)));
                assert forall|k: int, m: int| 0 <= k < non_unique@.len() && 0 <= m < non_unique@[k]@.len() implies
                    keys.contains(#[trigger] non_unique@[k]@[m]@) by {
                    if k < nb.len() {
                        assert(non_unique@[k] == nb[k]);
                    }
                }
                assert forall|m: int| 0 <= m < list@.len() implies #[trigger] in_lists(non_unique@, list@[m]@) by {
                    assert(string_views(sv).contains(list@[m]@));
                    let j = choose|j: int| 0 <= j < string_views(sv).len() && string_views(sv)[j] == list@[m]@;
                    assert(non_unique@[nb.len() as int]@[j]@ == list@[m]@);
                }
            }
        }
        proof {
            assert(extends(canon.ids(), cb)) by {
                assert(canon.ids().subrange(0, cb.len() as int) =~= cb);
            }
            assert forall|a: int, m: int| 0 <= a < g + 1 && 0 <= m < groups@[a].1@.len() implies
                canon.ids().contains(#[trigger] groups@[a].1@[m]@) || in_lists(non_unique@, groups@[a].1@[m]@) by {
                let x = groups@[a].1@[m]@;
                if a < g {
                    if cb.contains(x) {
                        lemma_extends_contains(canon.ids(), cb, x);
                    } else {
                        assert(in_lists(nb, x));
                        let (k, mm) = choose|k: int, mm: int| 0 <= k < nb.len() && 0 <= mm < nb[k]@.len() && #[trigger] nb[k]@[mm]@ == x;
                        assert(non_unique@[k] == nb[k]);
                        assert(non_unique@[k]@[mm]@ == x);
                    }
                } else {
                    if list@.len() != 1 {
                        assert(in_lists(non_unique@, list@[m]@));
                    }
                }
            }
        }
        g += 1;
    }
    proof {
        assert forall|bb: int| 0 <= bb < keys.len() implies canon.ids().contains(#[trigger] keys[bb])
            || in_lists(non_unique@, keys[bb]) by {
            assert(in_groups(groups@, keys[bb]));
            let (a, m) = choose|a: int, m: int| 0 <= a < groups@.len() && 0 <= m < groups@[a].1@.len()
                && #[trigger] groups@[a].1@[m]@ == keys[bb];
            assert(canon.ids().contains(groups@[a].1@[m]@) || in_lists(non_unique@, groups@[a].1@[m]@));
        }
    }
    let ghost c4 = canon.ids();
    let ghost lv = lists_view(non_unique@);
    assert(canon.ids().subrange(0, c4.len() as int) =~= c4);
    // Step 5: the other blank nodes, by their n-degree hashes.
    let mut u: usize = 0;
    while u < non_unique.len()
        invariant
            0 <= u <= non_unique@.len(),
            lv == lists_view(non_unique@),
            canon.ids() == shared_walk(lv, u as int, c4, idx@),
            index_wf(idx@),
            keys == index_keys(idx@),
            idx@.len() < usize::MAX,
            issuer_ok(canon, "c14n"@, idx@),
            extends(canon.ids(), c4),
            forall|k: int, m: int| 0 <= k < non_unique@.len() && 0 <= m < non_unique@[k]@.len() ==>
                keys.contains(#[trigger] non_unique@[k]@[m]@),
            forall|k: int, m: int| 0 <= k < u && 0 <= m < non_unique@[k]@.len() ==>
                canon.ids().contains(#[trigger] non_unique@[k]@[m]@),
        decreases non_unique@.len() - u,
    {
        let id_list = &non_unique[u];
        let ghost cu = canon.ids();
        let mut hash_path_list: Vec<(Vec<char>, IdentifierIssuer)> = Vec::new();
        let mut j: usize = 0;
        proof {
            reveal_strlit("b");
        }
        assert(string_views(id_list@) == lv[u as int]);
        assert(hp_view(hash_path_list@) =~= nd_results(lv[u as int], 0, cu, idx@));
        while j < id_list.len()
            invariant
                0 <= j <= id_list@.len(),
                index_wf(idx@),
                keys == index_keys(idx@),
                idx@.len() < usize::MAX,
                issuer_ok(canon, "c14n"@, idx@),
                canon.ids() == cu,
                id_list == &non_unique@[u as int],
                string_views(id_list@) == lv[u as int],
                hp_view(hash_path_list@) == nd_results(lv[u as int], j as int, cu, idx@),
                forall|m: int| 0 <= m < id_list@.len() ==> keys.contains(#[trigger] id_list@[m]@),
                forall|k: int| 0 <= k < hash_path_list@.len() ==> issuer_ok(#[trigger] hash_path_list@[k].1, "b"@, idx@),
                forall|m: int| 0 <= m < j ==> cu.contains(#[trigger] id_list@[m]@)
                    || exists|k: int| 0 <= k < hash_path_list@.len() && #[trigger] hash_path_list@[k].1.ids().contains(id_list@[m]@),
            decreases id_list@.len() - j,
        {
            let bn = &id_list[j];
            let ghost hb = hash_path_list@;
            assert(lv[u as int][j as int] == bn@);
            if !canon.has_issued(bn.as_str()) {
                let mut tmp = IdentifierIssuer::new("b");
                assert(tmp.ids().len() == 0);
                assert(tmp.order@.len() == 0);
                let _ = tmp.issue(bn.as_str());
                proof {
                    assert(keys.contains(id_list@[j as int]@));
                    assert(tmp.ids() =~= seq![bn@]);
                    lemma_within_len(canon.ids(), keys);
                }
                let ghost t0 = tmp.ids();
                let ghost m = idx@.len() - tmp.ids().len();
                let (nd_hash, result_issuer) = hash_n_degree_quads(bn.as_str(), &canon, &mut tmp, &idx, Ghost(m));
                proof {
                    assert(t0.contains(bn@)) by {
                        assert(t0[0] == bn@);
                    }
                    lemma_extends_contains(tmp.ids(), t0, bn@);
                    assert(result_issuer.ids().contains(bn@));
                }
                hash_path_list.push((text_chars(nd_hash.as_str()), result_issuer));
                proof {
                    assert(hp_view(hash_path_list@) =~= hp_view(hb).push((nd_hash@, result_issuer.ids())));
                    assert(hash_path_list@[hb.len() as int].1.ids().contains(id_list@[j as int]@));
                }
            }
            proof {
                assert forall|mm: int| 0 <= mm < j + 1 implies cu.contains(#[trigger] id_list@[mm]@)
                    || exists|k: int| 0 <= k < hash_path_list@.len() && #[trigger] hash_path_list@[k].1.ids().contains(id_list@[mm]@) by {
                    if mm < j {
                        if !cu.contains(id_list@[mm]@) {
                            let k = choose|k: int| 0 <= k < hb.len() && #[trigger] hb[k].1.ids().contains(id_list@[mm]@);
                            assert(hash_path_list@[k] == hb[k]);
                        }
                    } else if !cu.contains(id_list@[mm]@) {
                        assert(hash_path_list@[hb.len() as int].1.ids().contains(id_list@[mm]@));
                    }
                }
            }
            j += 1;
        }
        let ghost hpl = hash_path_list@;
        let ordered = sort_hash_paths(hash_path_list, Ghost(idx@));
        let ghost rs = hp_view(ordered@);
        assert(canon.ids().subrange(0, cu.len() as int) =~= cu);
        let mut e: usize = 0;
        while e < ordered.len()
            invariant
                0 <= e <= ordered@.len(),
                rs == hp_view(ordered@),
                canon.ids() == issue_results(cu, rs, e as int),
                index_wf(idx@),
                keys == index_keys(idx@),
                idx@.len() < usize::MAX,
                issuer_ok(canon, "c14n"@, idx@),
                extends(canon.ids(), cu),
                forall|k: int| 0 <= k < ordered@.len() ==> issuer_ok(#[trigger] ordered@[k].1, "b"@, idx@),
                forall|ee: int, o: int| 0 <= ee < e && 0 <= o < ordered@[ee].1.ids().len() ==>
                    canon.ids().contains(#[trigger] ordered@[ee].1.ids()[o]),
            decreases ordered@.len() - e,
        {
            let res = &ordered[e].1;
            assert(issuer_ok(ordered@[e as int].1, "b"@, idx@));
            let ghost ce = canon.ids();
            assert(canon.ids().subrange(0, ce.len() as int) =~= ce);
            assert(rs[e as int].1 == res.ids());
            let mut o: usize = 0;
            while o < res.order.len()
                invariant
                    0 <= o <= res.order@.len(),
                    canon.ids() == issue_all(ce, res.ids(), o as int),
                    keys == index_keys(idx@),
                    idx@.len() < usize::MAX,
                    issuer_ok(canon, "c14n"@, idx@),
                    issuer_ok(*res, "b"@, idx@),
                    extends(canon.ids(), ce),
                    forall|oo: int| 0 <= oo < o ==> canon.ids().contains(#[trigger] res.ids()[oo]),
                decreases res.order@.len() - o,
            {
                proof {
                    lemma_within_len(canon.ids(), keys);
                    assert(res.ids()[o as int] == res.order@[o as int]@);
                    assert(keys.contains(res.ids()[o as int]));
                }
                let ghost before = canon;
                let _ = canon.issue(res.order[o].as_str());
                proof {
                    assert forall|k: int| 0 <= k < canon.ids().len() implies keys.contains(#[trigger] canon.ids()[k]) by {
                        if k < before.ids().len() {
                            assert(canon.ids()[k] == before.ids()[k]);
                        }
                    }
                    assert(extends(canon.ids(), before.ids())) by {
                        assert(canon.ids().subrange(0, before.ids().len() as int) =~= before.ids());
                    }
                    lemma_extends_trans(canon.ids(), before.ids(), ce);
                    assert forall|oo: int| 0 <= oo < o + 1 implies canon.ids().contains(#[trigger] res.ids()[oo]) by {
                        if oo < o {
                            lemma_extends_contains(canon.ids(), before.ids(), res.ids()[oo]);
                        } else {
                            assert(res.ids()[oo] == res.order@[oo]@);
                            if before.ids().contains(res.ids()[oo]) {
                                lemma_extends_contains(canon.ids(), before.ids(), res.ids()[oo]);
                            } else {
                                assert(canon.ids()[before.ids().len() as int] == res.ids()[oo]);
                            }
                        }
                    }
                }
                o += 1;
            }
            proof {
                lemma_extends_trans(canon.ids(), ce, cu);
                assert forall|ee: int, oo: int| 0 <= ee < e + 1 && 0 <= oo < ordered@[ee].1.ids().len() implies
                    canon.ids().contains(#[trigger] ordered@[ee].1.ids()[oo]) by {
                    if ee < e {
                        assert(ce.contains(ordered@[ee].1.ids()[oo]));
                        lemma_extends_contains(canon.ids(), ce, ordered@[ee].1.ids()[oo]);
                    } else {
                        assert(res.ids()[oo] == ordered@[ee].1.ids()[oo]);
                    }
                }
            }
            e += 1;
        }
        proof {
            lemma_extends_trans(canon.ids(), cu, c4);
            assert forall|m: int| 0 <= m < id_list@.len() implies canon.ids().contains(#[trigger] id_list@[m]@) by {
                let x = id_list@[m]@;
                if cu.contains(x) {
                    lemma_extends_contains(canon.ids(), cu, x);
                } else {
                    let k = choose|k: int| 0 <= k < hpl.len() && #[trigger] hpl[k].1.ids().contains(x);
                    assert(ordered@.contains(hpl[k]));
                    let ee = choose|ee: int| 0 <= ee < ordered@.len() && ordered@[ee] == hpl[k];
                    let oo = choose|oo: int| 0 <= oo < hpl[k].1.ids().len() && hpl[k].1.ids()[oo] == x;
                    assert(ordered@[ee].1.ids()[oo] == x);
                }
            }
            assert forall|k: int, m: int| 0 <= k < u + 1 && 0 <= m < non_unique@[k]@.len() implies
                canon.ids().contains(#[trigger] non_unique@[k]@[m]@) by {
                if k < u {
                    lemma_extends_contains(canon.ids(), cu, non_unique@[k]@[m]@);
                }
            }
        }
        u += 1;
    }
    proof {
        assert forall|bb: int| 0 <= bb < keys.len() implies canon.ids().contains(#[trigger] keys[bb]) by {
            if c4.contains(keys[bb]) {
                lemma_extends_contains(canon.ids(), c4, keys[bb]);
            } else {
                assert(in_lists(non_unique@, keys[bb]));
                let (k, m) = choose|k: int, m: int| 0 <= k < non_unique@.len() && 0 <= m < non_unique@[k]@.len()
                    && #[trigger] non_unique@[k]@[m]@ == keys[bb];
                assert(canon.ids().contains(non_unique@[k]@[m]@));
            }
        }
        assert(within(keys, canon.ids()));
        assert(canon.ids() == canonical_ids(idx@));
    }
    // Steps 6 and 7: relabel, serialize, sort.
    let mut lines: Vec<Vec<char>> = Vec::new();
    let mut k: usize = 0;
    while k < quads.len()
        invariant
            0 <= k <= quads@.len(),
            qs == quad_views(quads@),
            canon.wf(),
            texts(lines@) == Seq::new(k as nat, |m: int| quad_text(relabel_canon(qs[m], canon))),
        decreases quads@.len() - k,
    {
        let rq = relabel_canonical(&quads[k], &canon);
        let mut line: Vec<char> = Vec::new();
        rq.write_nquads(&mut line);
        assert(qs[k as int] == quads@[k as int]@);
        let ghost before = texts(lines@);
        let ghost lv = line@;
        lines.push(line);
        assert(texts(lines@) =~= before.push(lv));
        assert(texts(lines@) =~= Seq::new((k + 1) as nat, |m: int| quad_text(relabel_canon(qs[m], canon))));
        k += 1;
    }
    let sorted = sort_texts(lines);
    let joined = concat_texts(&sorted);
    let out = text_string(joined.as_slice());
    proof {
        assert(out@ == canonical_text(qs, canon));
    }
    out
}

/// The keys of the first n terms number at most n.
proof fn lemma_keys_len(ps: Seq<(TermView, QuadView)>, n: int)
    requires
        n >= 0,
    ensures
        keys_upto(ps, n).len() <= n,
    decreases n,
{
    if n > 0 {
        lemma_keys_len(ps, n - 1);
    }
}

} // verus!

verus! {

/// t with a blank node relabelled to some value that `f` may return for its label.
pub open spec fn replaced_term<F: Fn(&str) -> String>(t: TermView, r: TermView, f: F) -> bool {
    match t {
        TermView::Blank(id) => exists|s: &str, out: String| #[trigger] f.ensures((s,), out) && s@ == id
            && r == TermView::Blank(out@),
        _ => r == t,
    }
}

fn replace_term<F: Fn(&str) -> String>(t: &Term, replacer: &F) -> (r: Term)
    requires
        forall|s: &str| #[trigger] replacer.requires((s,)),
    ensures
        replaced_term(t@, r@, *replacer),
{
    match t {
        Term::Blank(id) => {
            let s = id.as_str();
            let out = replacer(s);
            assert(replacer.ensures((s,), out));
            Term::Blank(out)
        },
        _ => copy_term(t),
    }
}

impl Quad {
    /// A copy of the quad with every blank node label replaced by what
    /// `replacer` returns for it.
    pub fn replace_blanks<F: Fn(&str) -> String>(&self, replacer: F) -> (r: Quad)
        requires
            forall|s: &str| #[trigger] replacer.requires((s,)),
        ensures
            replaced_term(self.subject@, r.subject@, replacer),
            replaced_term(self.predicate@, r.predicate@, replacer),
            replaced_term(self.object@, r.object@, replacer),
            replaced_term(self.graph_name@, r.graph_name@, replacer),
    {
        Quad {
            subject: replace_term(&self.subject, &replacer),
            predicate: replace_term(&self.predicate, &replacer),
            object: replace_term(&self.object, &replacer),
            graph_name: replace_term(&self.graph_name, &replacer),
        }
    }
}

} // verus!

verus! {

// ---------------------------------------------------------------------------
// Renaming blank nodes
// ---------------------------------------------------------------------------

/// The term with its blank node label renamed by f.
pub open spec fn rename_term(t: TermView, f: spec_fn(Seq<char>) -> Seq<char>) -> TermView {
    match t {
        TermView::Blank(b) => TermView::Blank(f(b)),
        _ => t,
    }
}

pub open spec fn rename_quad(q: QuadView, f: spec_fn(Seq<char>) -> Seq<char>) -> QuadView {
    QuadView {
        subject: rename_term(q.subject, f),
        predicate: rename_term(q.predicate, f),
        object: rename_term(q.object, f),
        graph_name: rename_term(q.graph_name, f),
    }
}

/// The dataset with every blank node label renamed by f.
pub open spec fn rename_all(qs: Seq<QuadView>, f: spec_fn(Seq<char>) -> Seq<char>) -> Seq<QuadView> {
    Seq::new(qs.len(), |i: int| rename_quad(qs[i], f))
}

proof fn lemma_quad_term_rename(q: QuadView, f: spec_fn(Seq<char>) -> Seq<char>, t: int)
    ensures
        quad_term(rename_quad(q, f), t) == rename_term(quad_term(q, t), f),
{
}

/// The blank node labels of the renamed dataset are the renamed labels, in the same order.
proof fn lemma_keys_rename(qs: Seq<QuadView>, f: spec_fn(Seq<char>) -> Seq<char>, n: int)
    requires
        vstd::relations::injective(f),
        0 <= n <= 4 * qs.len(),
    ensures
        keys_upto(term_pairs(rename_all(qs, f)), n) == keys_upto(term_pairs(qs), n).map_values(f),
    decreases n,
{
    if n > 0 {
        lemma_keys_rename(qs, f, n - 1);
        let ps = term_pairs(qs);
        let rs = term_pairs(rename_all(qs, f));
        let k = keys_upto(ps, n - 1);
        let km = k.map_values(f);
        assert(0 <= (n - 1) / 4 < qs.len());
        lemma_quad_term_rename(qs[(n - 1) / 4], f, (n - 1) % 4);
        assert(rs[n - 1].0 == rename_term(ps[n - 1].0, f));
        match ps[n - 1].0 {
            TermView::Blank(b) => {
                assert(km.contains(f(b)) <==> k.contains(b)) by {
                    if km.contains(f(b)) {
                        let j = choose|j: int| 0 <= j < km.len() && km[j] == f(b);
                        assert(f(k[j]) == f(b));
                    }
                    if k.contains(b) {
                        let j = choose|j: int| 0 <= j < k.len() && k[j] == b;
                        assert(km[j] == f(b));
                    }
                }
                assert(k.push(b).map_values(f) =~= km.push(f(b)));
            },
            _ => {},
        }
    }
}

/// The quads mentioning f(b) in the renamed dataset are the renamed quads mentioning b.
proof fn lemma_mentions_rename(qs: Seq<QuadView>, f: spec_fn(Seq<char>) -> Seq<char>, n: int, b: Seq<char>)
    requires
        vstd::relations::injective(f),
        0 <= n <= 4 * qs.len(),
    ensures
        mentions_upto(term_pairs(rename_all(qs, f)), n, f(b))
            == mentions_upto(term_pairs(qs), n, b).map_values(|q: QuadView| rename_quad(q, f)),
    decreases n,
{
    if n > 0 {
        lemma_mentions_rename(qs, f, n - 1, b);
        let ps = term_pairs(qs);
        let rs = term_pairs(rename_all(qs, f));
        let m = mentions_upto(ps, n - 1, b);
        assert(0 <= (n - 1) / 4 < qs.len());
        lemma_quad_term_rename(qs[(n - 1) / 4], f, (n - 1) % 4);
        assert(rs[n - 1].0 == rename_term(ps[n - 1].0, f));
        assert(rs[n - 1].1 == rename_quad(ps[n - 1].1, f));
        assert((rs[n - 1].0 == TermView::Blank(f(b))) <==> (ps[n - 1].0 == TermView::Blank(b))) by {
            match ps[n - 1].0 {
                TermView::Blank(c) => {
                    if f(c) == f(b) {
                        assert(c == b);
                    }
                },
                _ => {},
            }
        }
        assert(m.push(ps[n - 1].1).map_values(|q: QuadView| rename_quad(q, f))
            =~= m.map_values(|q: QuadView| rename_quad(q, f)).push(rename_quad(ps[n - 1].1, f)));
    }
}

/// The first-degree hash does not see the labels: renaming the quads and the
/// node together leaves it unchanged.
proof fn lemma_first_degree_rename(ms: Seq<QuadView>, b: Seq<char>, f: spec_fn(Seq<char>) -> Seq<char>)
    requires
        vstd::relations::injective(f),
    ensures
        first_degree_hash_spec(ms.map_values(|q: QuadView| rename_quad(q, f)), f(b)) == first_degree_hash_spec(ms, b),
{
    let rms = ms.map_values(|q: QuadView| rename_quad(q, f));
    assert forall|k: int| 0 <= k < ms.len() implies #[trigger] relabel_az(rms[k], f(b)) == relabel_az(ms[k], b) by {
        let q = ms[k];
        assert forall|t: TermView| #[trigger] relabel_term_az(rename_term(t, f), f(b)) == relabel_term_az(t, b) by {
            match t {
                TermView::Blank(c) => {
                    if f(c) == f(b) {
                        assert(c == b);
                    }
                },
                _ => {},
            }
        }
        assert(relabel_term_az(rename_term(q.subject, f), f(b)) == relabel_term_az(q.subject, b));
        assert(relabel_term_az(rename_term(q.predicate, f), f(b)) == relabel_term_az(q.predicate, b));
        assert(relabel_term_az(rename_term(q.object, f), f(b)) == relabel_term_az(q.object, b));
        assert(relabel_term_az(rename_term(q.graph_name, f), f(b)) == relabel_term_az(q.graph_name, b));
    }
    assert(Seq::new(rms.len(), |k: int| quad_text(relabel_az(rms[k], f(b))))
        =~= Seq::new(ms.len(), |k: int| quad_text(relabel_az(ms[k], b))));
}


/// The groups with every member renamed by f.
pub open spec fn map_groups(g: Seq<(Seq<char>, Seq<Seq<char>>)>, f: spec_fn(Seq<char>) -> Seq<char>)
    -> Seq<(Seq<char>, Seq<Seq<char>>)> {
    Seq::new(g.len(), |a: int| (g[a].0, g[a].1.map_values(f)))
}

/// Every group has exactly one member.
pub open spec fn all_singletons(g: Seq<(Seq<char>, Seq<Seq<char>>)>) -> bool {
    forall|a: int| 0 <= a < g.len() ==> #[trigger] g[a].1.len() == 1
}

proof fn lemma_shared_lists_empty(g: Seq<(Seq<char>, Seq<Seq<char>>)>, n: int)
    requires
        all_singletons(g),
        0 <= n <= g.len(),
    ensures
        shared_lists(g, n).len() == 0,
    decreases n,
{
    if n > 0 {
        lemma_shared_lists_empty(g, n - 1);
        assert(g[n - 1].1.len() == 1);
    }
}

proof fn lemma_issue_rename(ids: Seq<Seq<char>>, x: Seq<char>, f: spec_fn(Seq<char>) -> Seq<char>)
    requires
        vstd::relations::injective(f),
    ensures
        issue_spec(ids.map_values(f), f(x)) == issue_spec(ids, x).map_values(f),
{
    let m = ids.map_values(f);
    assert(m.contains(f(x)) <==> ids.contains(x)) by {
        if m.contains(f(x)) {
            let j = choose|j: int| 0 <= j < m.len() && m[j] == f(x);
            assert(f(ids[j]) == f(x));
        }
        if ids.contains(x) {
            let j = choose|j: int| 0 <= j < ids.len() && ids[j] == x;
            assert(m[j] == f(x));
        }
    }
    assert(ids.push(x).map_values(f) =~= m.push(f(x)));
}

proof fn lemma_unique_ids_rename(g: Seq<(Seq<char>, Seq<Seq<char>>)>, f: spec_fn(Seq<char>) -> Seq<char>, n: int)
    requires
        vstd::relations::injective(f),
        all_singletons(g),
        0 <= n <= g.len(),
    ensures
        unique_ids(map_groups(g, f), n) == unique_ids(g, n).map_values(f),
    decreases n,
{
    if n == 0 {
        assert(unique_ids(g, 0).map_values(f) =~= unique_ids(map_groups(g, f), 0));
    } else {
        lemma_unique_ids_rename(g, f, n - 1);
        assert(g[n - 1].1.len() == 1);
        assert(map_groups(g, f)[n - 1].1[0] == f(g[n - 1].1[0]));
        lemma_issue_rename(unique_ids(g, n - 1), g[n - 1].1[0], f);
    }
}

/// With one blank node per first-degree hash, the canonical issuer issues in
/// the order of the unique hashes.
proof fn lemma_canonical_ids_unique(idx: Seq<(String, Vec<Quad>)>)
    requires
        all_singletons(fd_groups(idx, idx.len() as int)),
    ensures
        canonical_ids(idx) == unique_ids(fd_groups(idx, idx.len() as int), fd_groups(idx, idx.len() as int).len() as int),
{
    let g = fd_groups(idx, idx.len() as int);
    lemma_shared_lists_empty(g, g.len() as int);
}

/// Renamed issuers give renamed labels the same canonical label.
proof fn lemma_canon_label_rename(iss1: IdentifierIssuer, iss2: IdentifierIssuer, f: spec_fn(Seq<char>) -> Seq<char>,
    c: Seq<char>)
    requires
        vstd::relations::injective(f),
        iss1.wf(),
        iss2.prefix@ == iss1.prefix@,
        iss2.ids() == iss1.ids().map_values(f),
        iss1.ids().contains(c),
    ensures
        canon_label(iss2, f(c)) == canon_label(iss1, c),
{
    let ids = iss1.ids();
    let m = ids.map_values(f);
    let j = ids.index_of(c);
    assert(ids[j] == c && 0 <= j < ids.len());
    assert(m[j] == f(c));
    assert(m.contains(f(c)));
    ids.lemma_no_duplicates_injective(f);
    let j2 = m.index_of(f(c));
    assert(m[j2] == f(c) && 0 <= j2 < m.len());
    assert(j2 == j);
}

} // verus!
