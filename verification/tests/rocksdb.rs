use vgstore::error::StorageError;
use vgstore::model::{BlankNode, GraphName, Literal, NamedNode, Quad, Term};
use vgstore::store::RocksDbStore;
use vgstore::term_encoder::XSD_INTEGER;

fn random_blank_node() -> BlankNode {
    BlankNode::new(format!("{:x}", rand::random::<u128>() | 1))
}

fn integer_literal(i: i64) -> Term {
    Term::Literal(Literal::new_typed_literal(
        i.to_string(),
        NamedNode::new(XSD_INTEGER.to_owned()),
    ))
}

fn quad(s: &Term, p: &NamedNode, o: Term, g: GraphName) -> Quad {
    Quad::new(s.duplicate(), p.duplicate(), o, g)
}

#[test]
fn rocksdb_store() -> Result<(), StorageError> {
    let main_s = Term::BlankNode(random_blank_node());
    let main_p = NamedNode::new("http://example.com".to_owned());
    let main_o = integer_literal(1);
    let main_g = GraphName::BlankNode(random_blank_node());

    let default_quad = quad(&main_s, &main_p, main_o.duplicate(), GraphName::DefaultGraph);
    let named_quad = quad(&main_s, &main_p, main_o.duplicate(), main_g.duplicate());
    let default_quads = vec![
        quad(&main_s, &main_p, integer_literal(0), GraphName::DefaultGraph),
        default_quad.duplicate(),
        quad(&main_s, &main_p, integer_literal(200000000), GraphName::DefaultGraph),
    ];
    let all_quads = vec![
        quad(&main_s, &main_p, integer_literal(0), GraphName::DefaultGraph),
        default_quad.duplicate(),
        quad(&main_s, &main_p, integer_literal(200000000), GraphName::DefaultGraph),
        named_quad.duplicate(),
    ];

    let mut store = RocksDbStore::open()?;
    for t in &default_quads {
        store.insert(t)?;
    }

    let mut transaction = store.transaction();
    transaction.remove(&default_quad)?;
    transaction.insert(&named_quad)?;
    transaction.insert(&default_quad)?;
    transaction.commit(&mut store)?;

    let dg = GraphName::DefaultGraph;
    assert_eq!(store.len(), 4);
    assert_eq!(store.iter()?, all_quads);
    assert_eq!(store.quads_for_pattern(Some(&main_s), None, None, None)?, all_quads);
    assert_eq!(
        store.quads_for_pattern(Some(&main_s), Some(&main_p), None, None)?,
        all_quads
    );
    assert_eq!(
        store.quads_for_pattern(Some(&main_s), Some(&main_p), Some(&main_o), None)?,
        vec![default_quad.duplicate(), named_quad.duplicate()]
    );
    assert_eq!(
        store.quads_for_pattern(Some(&main_s), Some(&main_p), Some(&main_o), Some(&dg))?,
        vec![default_quad.duplicate()]
    );
    assert_eq!(
        store.quads_for_pattern(Some(&main_s), Some(&main_p), Some(&main_o), Some(&main_g))?,
        vec![named_quad.duplicate()]
    );
    assert_eq!(
        store.quads_for_pattern(Some(&main_s), Some(&main_p), None, Some(&dg))?,
        default_quads
    );
    assert_eq!(
        store.quads_for_pattern(Some(&main_s), None, Some(&main_o), None)?,
        vec![default_quad.duplicate(), named_quad.duplicate()]
    );
    assert_eq!(
        store.quads_for_pattern(Some(&main_s), None, Some(&main_o), Some(&dg))?,
        vec![default_quad.duplicate()]
    );
    assert_eq!(
        store.quads_for_pattern(Some(&main_s), None, Some(&main_o), Some(&main_g))?,
        vec![named_quad.duplicate()]
    );
    assert_eq!(
        store.quads_for_pattern(Some(&main_s), None, None, Some(&dg))?,
        default_quads
    );
    assert_eq!(store.quads_for_pattern(None, Some(&main_p), None, None)?, all_quads);
    assert_eq!(
        store.quads_for_pattern(None, Some(&main_p), Some(&main_o), None)?,
        vec![default_quad.duplicate(), named_quad.duplicate()]
    );
    assert_eq!(
        store.quads_for_pattern(None, None, Some(&main_o), None)?,
        vec![default_quad.duplicate(), named_quad.duplicate()]
    );
    assert_eq!(store.quads_for_pattern(None, None, None, Some(&dg))?, default_quads);
    assert_eq!(
        store.quads_for_pattern(None, Some(&main_p), Some(&main_o), Some(&dg))?,
        vec![default_quad.duplicate()]
    );
    assert_eq!(
        store.quads_for_pattern(None, Some(&main_p), Some(&main_o), Some(&main_g))?,
        vec![named_quad]
    );
    Ok(())
}

#[test]
fn pattern_with_unknown_string_is_empty() {
    let mut store = RocksDbStore::new();
    let s = Term::NamedNode(NamedNode::new("http://example.com/s".to_owned()));
    let p = NamedNode::new("http://example.com/p".to_owned());
    store.insert(&quad(&s, &p, integer_literal(1), GraphName::DefaultGraph)).unwrap();
    let unknown = NamedNode::new("http://example.com/unknown".to_owned());
    assert!(store.quads_for_pattern(None, Some(&unknown), None, None).unwrap().is_empty());
    assert_eq!(store.quads_for_pattern(Some(&s), None, None, None).unwrap().len(), 1);
}
