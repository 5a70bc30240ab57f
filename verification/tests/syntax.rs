use vgstore::syntax::{DatasetSyntax, FileSyntax, GraphSyntax};

#[test]
fn graph_syntax_from_mime_type() {
    assert_eq!(
        GraphSyntax::from_mime_type("text/turtle; charset=utf-8"),
        Some(GraphSyntax::Turtle)
    );
    assert_eq!(GraphSyntax::from_mime_type("text/plain"), Some(GraphSyntax::NTriples));
    assert_eq!(GraphSyntax::from_mime_type("application/xml"), Some(GraphSyntax::RdfXml));
    assert_eq!(GraphSyntax::from_mime_type("application/x-turtle"), Some(GraphSyntax::Turtle));
    assert_eq!(GraphSyntax::from_mime_type("text/html"), None);
    assert_eq!(GraphSyntax::from_mime_type(""), None);
    assert_eq!(GraphSyntax::from_mime_type(" text/turtle"), None);
}

#[test]
fn dataset_syntax_from_mime_type() {
    assert_eq!(DatasetSyntax::from_mime_type("application/trig"), Some(DatasetSyntax::TriG));
    assert_eq!(DatasetSyntax::from_mime_type("text/x-nquads;q=0.5"), Some(DatasetSyntax::NQuads));
    assert_eq!(DatasetSyntax::from_mime_type("text/turtle"), None);
}

#[test]
fn syntax_names() {
    assert_eq!(GraphSyntax::NTriples.iri(), "http://www.w3.org/ns/formats/N-Triples");
    assert_eq!(GraphSyntax::Turtle.media_type(), "text/turtle");
    assert_eq!(GraphSyntax::RdfXml.file_extension(), "rdf");
    assert_eq!(DatasetSyntax::NQuads.media_type(), "application/n-quads");
    assert_eq!(DatasetSyntax::TriG.file_extension(), "trig");
    assert_eq!(DatasetSyntax::TriG.iri(), "http://www.w3.org/ns/formats/TriG");
}

#[test]
fn media_type_roundtrip() {
    for s in [GraphSyntax::NTriples, GraphSyntax::Turtle, GraphSyntax::RdfXml] {
        assert_eq!(GraphSyntax::from_mime_type(s.media_type()), Some(s));
        let with_params = format!("{}; charset=utf-8", s.media_type());
        assert_eq!(GraphSyntax::from_mime_type(&with_params), Some(s));
    }
    for s in [DatasetSyntax::NQuads, DatasetSyntax::TriG] {
        assert_eq!(DatasetSyntax::from_mime_type(s.media_type()), Some(s));
    }
}
