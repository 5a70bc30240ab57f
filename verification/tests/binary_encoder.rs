use vgstore::binary_encoder::{decode_term, write_term};
use vgstore::model::{BlankNode, Literal, NamedNode, Term, Triple};
use vgstore::store::RocksDbStore;
use vgstore::term_decoder::TermDecoder;
use vgstore::term_encoder::{
    TermEncoder, XSD_BOOLEAN, XSD_DATE, XSD_DATE_TIME, XSD_DAY_TIME_DURATION, XSD_DECIMAL,
    XSD_DOUBLE, XSD_DURATION, XSD_G_DAY, XSD_G_MONTH, XSD_G_MONTH_DAY, XSD_G_YEAR,
    XSD_G_YEAR_MONTH, XSD_INTEGER, XSD_TIME, XSD_YEAR_MONTH_DURATION,
};

fn named(iri: &str) -> NamedNode {
    NamedNode::new(iri.to_owned())
}

fn typed(value: &str, datatype: &str) -> Term {
    Term::Literal(Literal::new_typed_literal(value.to_owned(), named(datatype)))
}

fn lang(value: &str, language: &str) -> Term {
    Term::Literal(Literal::new_language_tagged_literal_unchecked(
        value.to_owned(),
        language.to_owned(),
    ))
}

#[test]
fn binary_encoder_test_encoding() {
    let mut store = RocksDbStore::new();
    let terms: Vec<Term> = vec![
        Term::NamedNode(named("http://foo.com")),
        Term::NamedNode(named("http://bar.com")),
        Term::NamedNode(named("http://foo.com")),
        Term::BlankNode(BlankNode::new(format!("{:x}", rand::random::<u128>() | 1 << 100))),
        Term::BlankNode(BlankNode::new("bnode".to_owned())),
        Term::BlankNode(BlankNode::new("foo-bnode-thisisaverylargeblanknode".to_owned())),
        Term::Literal(Literal::new_simple_literal("literal".to_owned())),
        Term::BlankNode(BlankNode::new("foo-literal-thisisaverylargestringliteral".to_owned())),
        typed("true", XSD_BOOLEAN),
        typed("1.2", XSD_DOUBLE),
        typed("1", XSD_INTEGER),
        Term::Literal(Literal::new_simple_literal("foo-string".to_owned())),
        lang("foo-fr", "fr"),
        lang("foo-fr-literal-thisisaverylargelanguagetaggedstringliteral", "fr"),
        lang("foo-big", "fr-FR-Latn-x-foo-bar-baz-bat-aaaa-bbbb-cccc"),
        lang(
            "foo-big-literal-thisisaverylargelanguagetaggedstringliteral",
            "fr-FR-Latn-x-foo-bar-baz-bat-aaaa-bbbb-cccc",
        ),
        typed("-1.32", XSD_DECIMAL),
        typed("2020-01-01T01:01:01Z", XSD_DATE_TIME),
        typed("2020-01-01", XSD_DATE),
        typed("01:01:01Z", XSD_TIME),
        typed("2020-01", XSD_G_YEAR_MONTH),
        typed("2020", XSD_G_YEAR),
        typed("--01-01", XSD_G_MONTH_DAY),
        typed("--01", XSD_G_MONTH),
        typed("---01", XSD_G_DAY),
        typed("PT1S", XSD_DURATION),
        typed("PT1S", XSD_DAY_TIME_DURATION),
        typed("P1Y", XSD_YEAR_MONTH_DURATION),
        typed("-foo", "http://foo.com"),
        typed("-foo-thisisaverybigtypedliteralwiththefoodatatype", "http://foo.com"),
        Term::Triple(Box::new(Triple::new(
            Term::NamedNode(named("http://foo.com")),
            named("http://bar.com"),
            typed("true", XSD_BOOLEAN),
        ))),
    ];
    let encoder = TermEncoder::new();
    for term in terms {
        let encoded = encoder.encode_term(&term);
        store.insert_term(&term, &encoded).unwrap();
        assert_eq!(encoded, encoder.encode_term(&term));
        assert_eq!(term, TermDecoder::new(&store).decode_term(&encoded).unwrap());

        let mut buffer = Vec::new();
        write_term(&mut buffer, &encoded);
        assert_eq!(encoded, decode_term(&buffer).unwrap());
    }
}

#[test]
fn numeric_literals_are_stored_by_value() {
    let encoder = TermEncoder::new();
    let store = RocksDbStore::new();
    let decoder = TermDecoder::new(&store);
    let t = encoder.encode_term(&typed("01", XSD_INTEGER));
    assert_eq!(decoder.decode_term(&t).unwrap(), typed("1", XSD_INTEGER));
    let b = encoder.encode_term(&typed("1", XSD_BOOLEAN));
    assert_eq!(decoder.decode_term(&b).unwrap(), typed("true", XSD_BOOLEAN));
    let bad = encoder.encode_term(&typed("abc", XSD_INTEGER));
    assert!(bad.is_unknown_typed_literal());
}

#[test]
fn missing_string_is_reported() {
    let encoder = TermEncoder::new();
    let store = RocksDbStore::new();
    let t = encoder.encode_term(&Term::NamedNode(named("http://example.com/missing")));
    assert!(TermDecoder::new(&store).decode_term(&t).is_err());
}

#[test]
fn truncated_buffer_is_an_error() {
    let encoder = TermEncoder::new();
    let t = encoder.encode_term(&Term::NamedNode(named("http://example.com")));
    let mut buffer = Vec::new();
    write_term(&mut buffer, &t);
    buffer.pop();
    assert!(decode_term(&buffer).is_err());
    assert!(decode_term(&[200]).is_err());
}
