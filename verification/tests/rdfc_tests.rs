use sirraya_ml_dsa_65::rdfc::{canonicalize, escape_string, parse_nquads, IdentifierIssuer, Quad, Term};

#[test]
fn test_escape_string() {
    assert_eq!(escape_string("hello"), "hello");
    assert_eq!(escape_string("a\nb"), "a\\nb");
    assert_eq!(escape_string("a\"b"), "a\\\"b");
    assert_eq!(escape_string("a\\b"), "a\\\\b");
    assert_eq!(escape_string("\x08"), "\\b");
    assert_eq!(escape_string("\x7F"), "\\u007F");
}

#[test]
fn test_parse_simple_quad() {
    let q = parse_nquads("<http://a.example/s> <http://a.example/p> <http://a.example/o> .\n").unwrap();
    assert_eq!(q.len(), 1);
    assert_eq!(q[0].subject, Term::Iri("http://a.example/s".into()));
    assert_eq!(q[0].predicate, Term::Iri("http://a.example/p".into()));
    assert_eq!(q[0].object, Term::Iri("http://a.example/o".into()));
    assert_eq!(q[0].graph_name, Term::DefaultGraph);
}

#[test]
fn test_parse_blank_nodes() {
    let q = parse_nquads("_:b0 <http://ex.org/p> _:b1 .\n").unwrap();
    assert_eq!(q[0].subject, Term::Blank("b0".into()));
    assert_eq!(q[0].object, Term::Blank("b1".into()));
}

#[test]
fn test_parse_typed_literal() {
    let q = parse_nquads("_:b0 <http://ex.org/p> \"hello\"^^<http://www.w3.org/2001/XMLSchema#string> .\n").unwrap();
    assert!(matches!(&q[0].object, Term::Literal { value, datatype, .. }
        if value == "hello" && datatype.as_deref() == Some("http://www.w3.org/2001/XMLSchema#string")));
}

#[test]
fn test_term_to_nquads() {
    assert_eq!(Term::Iri("http://x.org/".into()).to_nquads(), "<http://x.org/>");
    assert_eq!(Term::Blank("b0".into()).to_nquads(), "_:b0");
    assert_eq!(Term::Literal { value: "hi".into(), datatype: None, language: None }.to_nquads(), "\"hi\"");
    assert_eq!(
        Term::Literal {
            value: "hi".into(),
            datatype: Some("http://www.w3.org/2001/XMLSchema#string".into()),
            language: None,
        }
        .to_nquads(),
        "\"hi\""
    );
    assert_eq!(
        Term::Literal { value: "bonjour".into(), datatype: None, language: Some("fr".into()) }.to_nquads(),
        "\"bonjour\"@fr"
    );
}

#[test]
fn test_identifier_issuer() {
    let mut issuer = IdentifierIssuer::new("c14n");
    assert_eq!(issuer.issue("b0"), "c14n0");
    assert_eq!(issuer.issue("b1"), "c14n1");
    assert_eq!(issuer.issue("b0"), "c14n0");
    assert!(issuer.has_issued("b0"));
    assert!(!issuer.has_issued("b99"));
}

#[test]
fn test_canonicalize_no_blanks() {
    let input = "<http://s.example/> <http://p.example/> <http://o.example/> .\n";
    let quads = parse_nquads(input).unwrap();
    let result = canonicalize(&quads);
    assert_eq!(result, input);
}

#[test]
fn test_canonicalize_unique_hashes() {
    let input = r#"<http://example.com/#p> <http://example.com/#q> _:e0 .
<http://example.com/#p> <http://example.com/#r> _:e1 .
_:e0 <http://example.com/#s> <http://example.com/#u> .
_:e1 <http://example.com/#t> <http://example.com/#u> .
"#;
    let expected = r#"<http://example.com/#p> <http://example.com/#q> _:c14n0 .
<http://example.com/#p> <http://example.com/#r> _:c14n1 .
_:c14n0 <http://example.com/#s> <http://example.com/#u> .
_:c14n1 <http://example.com/#t> <http://example.com/#u> .
"#;
    let quads = parse_nquads(input).unwrap();
    let result = canonicalize(&quads);
    assert_eq!(result, expected);
}

#[test]
fn test_idempotency() {
    let input = r#"_:a <http://ex.org/p> _:b .
_:b <http://ex.org/q> _:c .
_:c <http://ex.org/r> <http://ex.org/x> .
"#;
    let quads1 = parse_nquads(input).unwrap();
    let pass1 = canonicalize(&quads1);
    let quads2 = parse_nquads(&pass1).unwrap();
    let pass2 = canonicalize(&quads2);
    assert_eq!(pass1, pass2, "Canonicalization must be idempotent");
}

#[test]
fn test_different_blank_ids_same_structure() {
    let input_a = "_:x <http://ex.org/p> <http://ex.org/o> .\n";
    let input_b = "_:foo <http://ex.org/p> <http://ex.org/o> .\n";
    let ca = canonicalize(&parse_nquads(input_a).unwrap());
    let cb = canonicalize(&parse_nquads(input_b).unwrap());
    assert_eq!(ca, cb);
}

#[test]
fn test_sort_order() {
    let input = r#"_:b1 <http://ex.org/z> <http://ex.org/o> .
_:b0 <http://ex.org/a> <http://ex.org/o> .
"#;
    let result = canonicalize(&parse_nquads(input).unwrap());
    let lines: Vec<&str> = result.lines().collect();
    let mut sorted = lines.clone();
    sorted.sort();
    assert_eq!(lines, sorted, "Output lines must be in code point order");
}

// ---------------------------------------------------------------------------
// Further checks of the contracts on concrete values
// ---------------------------------------------------------------------------

#[test]
fn parse_skips_comments_and_blank_lines() {
    let q = parse_nquads("# comment\n\n   \n<http://s> <http://p> \"v\"@en <http://g> .\n").unwrap();
    assert_eq!(q.len(), 1);
    assert_eq!(q[0].graph_name, Term::Iri("http://g".into()));
    assert_eq!(q[0].object, Term::Literal { value: "v".into(), datatype: None, language: Some("en".into()) });
}

#[test]
fn parse_errors() {
    assert!(parse_nquads("<http://s> <http://p> <http://o>\n").is_err());
    assert!(parse_nquads("<http://s <http://p> <http://o> .\n").is_err());
    assert!(parse_nquads("<http://s> <http://p> \"unterminated .\n").is_err());
    assert!(parse_nquads("x <http://p> <http://o> .\n").is_err());
    assert!(parse_nquads("<http://s> <http://p> \"a\"^^_:b .\n").is_err());
    assert!(parse_nquads("<http://s> <http://p> \"\\uZZZZ\" .\n").is_err());
}

#[test]
fn parse_literal_escapes() {
    let q = parse_nquads("<http://s> <http://p> \"a\\tb\\u0041\\U0001F600\\q\" .\n").unwrap();
    assert_eq!(q[0].object, Term::Literal { value: "a\tbA\u{1F600}\\q".into(), datatype: None, language: None });
}

#[test]
fn escape_control_characters() {
    assert_eq!(escape_string("\x01"), "\\u0001");
    assert_eq!(escape_string("\x0B"), "\\u000B");
    assert_eq!(escape_string("\x1F\x0C\r\t"), "\\u001F\\f\\r\\t");
    assert_eq!(escape_string("é"), "é");
}

#[test]
fn quad_to_nquads_with_graph() {
    let q = Quad {
        subject: Term::Blank("x".into()),
        predicate: Term::Iri("http://p".into()),
        object: Term::Literal {
            value: "1".into(),
            datatype: Some("http://www.w3.org/2001/XMLSchema#integer".into()),
            language: None,
        },
        graph_name: Term::Iri("http://g".into()),
    };
    assert_eq!(q.to_nquads(), "_:x <http://p> \"1\"^^<http://www.w3.org/2001/XMLSchema#integer> <http://g> .\n");
}

#[test]
fn term_helpers() {
    assert!(Term::Blank("b".into()).is_blank());
    assert!(!Term::DefaultGraph.is_blank());
    assert_eq!(Term::Blank("b7".into()).blank_id(), Some("b7"));
    assert_eq!(Term::Iri("i".into()).blank_id(), None);
}

#[test]
fn issuer_get() {
    let mut issuer = IdentifierIssuer::new("b");
    assert_eq!(issuer.get("x"), None);
    issuer.issue("x");
    issuer.issue("y");
    assert_eq!(issuer.get("y"), Some("b1"));
    assert_eq!(issuer.counter, 2);
}

#[test]
fn replace_blanks_relabels_blank_nodes_only() {
    let q = Quad {
        subject: Term::Blank("x".into()),
        predicate: Term::Iri("http://p".into()),
        object: Term::Blank("y".into()),
        graph_name: Term::DefaultGraph,
    };
    let r = q.replace_blanks(|b: &str| format!("n{}", b));
    assert_eq!(r.subject, Term::Blank("nx".into()));
    assert_eq!(r.object, Term::Blank("ny".into()));
    assert_eq!(r.predicate, Term::Iri("http://p".into()));
}

#[test]
fn canonicalize_typed_and_language_literals() {
    let q = parse_nquads("_:b0 <http://schema.org/name> \"Alice\"^^<http://www.w3.org/2001/XMLSchema#string> .\n").unwrap();
    assert_eq!(canonicalize(&q), "_:c14n0 <http://schema.org/name> \"Alice\" .\n");
    let q = parse_nquads("_:x <http://schema.org/name> \"Bonjour\"@fr .\n").unwrap();
    assert_eq!(canonicalize(&q), "_:c14n0 <http://schema.org/name> \"Bonjour\"@fr .\n");
    let q = parse_nquads("_:b0 <http://example.org/p> <http://example.org/o> <http://example.org/g> .\n").unwrap();
    assert_eq!(canonicalize(&q), "_:c14n0 <http://example.org/p> <http://example.org/o> <http://example.org/g> .\n");
}

#[test]
fn canonicalize_shared_hashes_is_stable() {
    let input = r#"<http://example.com/#p> <http://example.com/#q> _:e0 .
<http://example.com/#p> <http://example.com/#q> _:e1 .
_:e0 <http://example.com/#p> _:e2 .
_:e1 <http://example.com/#p> _:e3 .
_:e2 <http://example.com/#r> _:e3 .
_:e3 <http://example.com/#r> _:e2 .
"#;
    let once = canonicalize(&parse_nquads(input).unwrap());
    let twice = canonicalize(&parse_nquads(&once).unwrap());
    assert_eq!(once, twice);
    assert!(!once.contains("MISSING_"));
    assert_eq!(once.lines().count(), 6);
}

#[test]
fn canonical_form_ignores_quad_order_and_labels() {
    let a = "_:a <http://ex.org/p> _:b .\n_:b <http://ex.org/q> \"x\"@en .\n_:a <http://ex.org/r> <http://ex.org/o> <http://ex.org/g> .\n";
    let b = "_:n2 <http://ex.org/r> <http://ex.org/o> <http://ex.org/g> .\n_:n1 <http://ex.org/q> \"x\"@en .\n_:n2 <http://ex.org/p> _:n1 .\n";
    let ca = canonicalize(&parse_nquads(a).unwrap());
    let cb = canonicalize(&parse_nquads(b).unwrap());
    assert_eq!(ca, cb);
}

#[test]
fn canonical_form_reads_back_and_is_a_fixed_point() {
    let s = "_:x <http://ex.org/p> \"tab\\there \\\"q\\\" \\u0001\" .\n_:y <http://ex.org/p> \"v\"^^<http://ex.org/dt> _:x .\n";
    let c1 = canonicalize(&parse_nquads(s).unwrap());
    let back = parse_nquads(&c1).unwrap();
    assert_eq!(back.len(), 2);
    assert_eq!(canonicalize(&back), c1);
}

#[test]
fn renaming_keeps_canonical_form_with_shared_first_degree_hashes() {
    let a = "_:a <http://ex.org/p> _:b .\n_:b <http://ex.org/q> <http://ex.org/x> .\n_:c <http://ex.org/p> _:d .\n_:d <http://ex.org/q> <http://ex.org/y> .\n";
    let b = "_:k1 <http://ex.org/p> _:k2 .\n_:k2 <http://ex.org/q> <http://ex.org/x> .\n_:k3 <http://ex.org/p> _:k4 .\n_:k4 <http://ex.org/q> <http://ex.org/y> .\n";
    let ca = canonicalize(&parse_nquads(a).unwrap());
    let cb = canonicalize(&parse_nquads(b).unwrap());
    assert_eq!(ca, cb);
    assert!(ca.contains("_:c14n0"));
}
