use vgstore::model::{NamedNode, Term, Triple};
use vgstore::str_hash::StrHash;
use vgstore::term_encoder::{insert_term, TermEncoder};

fn iri(s: &str) -> NamedNode {
    NamedNode::new(s.to_owned())
}

fn long_triple() -> Term {
    Term::Triple(Box::new(Triple::new(
        Term::NamedNode(iri("http://example.com/s")),
        iri("http://example.com/p"),
        Term::NamedNode(iri("http://example.com/o")),
    )))
}

#[test]
fn insert_term_hands_over_every_hashed_string() {
    let t = long_triple();
    let e = TermEncoder::new().encode_term(&t);
    let mut sink: Vec<(StrHash, String)> = Vec::new();
    assert!(insert_term(&t, &e, &mut sink).is_ok());
    let strings: Vec<&str> = sink.iter().map(|(_, s)| s.as_str()).collect();
    assert_eq!(strings, vec!["http://example.com/s", "http://example.com/p", "http://example.com/o"]);
    for (h, s) in &sink {
        assert!(*h == StrHash::new(s));
    }
}

#[test]
fn insert_term_hands_over_nothing_for_inline_terms() {
    let t = Term::Literal(vgstore::model::Literal::new_simple_literal("short".to_owned()));
    let e = TermEncoder::new().encode_term(&t);
    let mut sink: Vec<(StrHash, String)> = Vec::new();
    assert!(insert_term(&t, &e, &mut sink).is_ok());
    assert!(sink.is_empty());
}
