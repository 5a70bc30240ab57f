use std::collections::{HashMap, HashSet};
use vgstore::memory::{
    insert_into_quad_map, insert_into_triple_map, option_pair_map_flatten, option_set_flatten,
    option_triple_map_flatten, quad_map_flatten, remove_from_quad_map, remove_from_triple_map,
    triple_map_flatten, IdQuad, MemoryStore, MemoryStoreIndexes, QuadMap, TripleMap,
};
use vgstore::model::{BlankNode, GraphName, Literal, NamedNode, Quad, Term, Triple};
use vgstore::term_encoder::XSD_INTEGER;

fn integer_literal(i: i64) -> Term {
    Term::Literal(Literal::new_typed_literal(
        i.to_string(),
        NamedNode::new(XSD_INTEGER.to_owned()),
    ))
}

fn quad(s: &Term, p: &NamedNode, o: Term, g: GraphName) -> Quad {
    Quad::new(s.duplicate(), p.duplicate(), o, g)
}

fn same_quads(actual: &[Quad], expected: &[Quad]) -> bool {
    actual.len() == expected.len() && expected.iter().all(|q| actual.contains(q))
}

#[test]
fn memory_triple_map_insert_and_remove() {
    let mut m: TripleMap = HashMap::new();
    insert_into_triple_map(&mut m, 1, 2, 3);
    insert_into_triple_map(&mut m, 1, 2, 4);
    insert_into_triple_map(&mut m, 5, 6, 7);
    insert_into_triple_map(&mut m, 1, 2, 3);
    let mut all = triple_map_flatten(&m);
    all.sort();
    assert_eq!(all, vec![(1, 2, 3), (1, 2, 4), (5, 6, 7)]);
    let mut pairs = option_pair_map_flatten(m.get(&1));
    pairs.sort();
    assert_eq!(pairs, vec![(2, 3), (2, 4)]);
    let mut objects = option_set_flatten(m.get(&1).and_then(|x| x.get(&2)));
    objects.sort();
    assert_eq!(objects, vec![3, 4]);
    assert!(option_pair_map_flatten(m.get(&9)).is_empty());

    remove_from_triple_map(&mut m, 5, 6, 7);
    assert!(!m.contains_key(&5));
    remove_from_triple_map(&mut m, 1, 2, 3);
    remove_from_triple_map(&mut m, 1, 2, 9);
    assert_eq!(triple_map_flatten(&m), vec![(1, 2, 4)]);
    remove_from_triple_map(&mut m, 1, 2, 4);
    assert!(m.is_empty());
}

#[test]
fn memory_quad_map_insert_and_remove() {
    let mut m: QuadMap = HashMap::new();
    insert_into_quad_map(&mut m, 1, 2, 3, 4);
    insert_into_quad_map(&mut m, 1, 2, 3, 5);
    insert_into_quad_map(&mut m, 6, 7, 8, 9);
    let mut all = quad_map_flatten(&m);
    all.sort();
    assert_eq!(all, vec![(1, 2, 3, 4), (1, 2, 3, 5), (6, 7, 8, 9)]);
    let mut under = option_triple_map_flatten(m.get(&1));
    under.sort();
    assert_eq!(under, vec![(2, 3, 4), (2, 3, 5)]);
    remove_from_quad_map(&mut m, 1, 2, 3, 4);
    remove_from_quad_map(&mut m, 1, 2, 3, 5);
    assert!(!m.contains_key(&1));
    assert_eq!(quad_map_flatten(&m), vec![(6, 7, 8, 9)]);
    let empty: HashSet<u64> = HashSet::new();
    assert!(option_set_flatten(Some(&empty)).is_empty());
}

#[test]
fn memory_indexes_answer_every_pattern() {
    let mut idx = MemoryStoreIndexes::new();
    let d = IdQuad { subject: 1, predicate: 2, object: 3, graph_name: None };
    let n = IdQuad { subject: 1, predicate: 2, object: 3, graph_name: Some(4) };
    let other = IdQuad { subject: 5, predicate: 2, object: 6, graph_name: Some(4) };
    idx.insert_encoded(&d);
    idx.insert_encoded(&n);
    idx.insert_encoded(&other);
    assert!(idx.contains_encoded(&d));
    assert!(idx.contains_encoded(&n));
    assert_eq!(idx.encoded_quads().len(), 3);
    assert_eq!(idx.encoded_quads_for_subject(1).len(), 2);
    assert_eq!(idx.encoded_quads_for_predicate(2).len(), 3);
    assert_eq!(idx.encoded_quads_for_object(6).len(), 1);
    assert_eq!(idx.encoded_quads_for_subject_object(1, 3).len(), 2);
    assert_eq!(idx.encoded_quads_for_predicate_object(2, 3).len(), 2);
    assert_eq!(idx.encoded_quads_for_subject_predicate_object(1, 2, 3).len(), 2);
    assert_eq!(idx.encoded_quads_for_graph(None).len(), 1);
    assert_eq!(idx.encoded_quads_for_graph(Some(4)).len(), 2);
    assert_eq!(idx.encoded_quads_for_subject_graph(5, Some(4)).len(), 1);
    assert_eq!(idx.encoded_quads_for_subject_predicate_graph(1, 2, None).len(), 1);
    assert_eq!(idx.encoded_quads_for_subject_object_graph(1, 3, Some(4)).len(), 1);
    assert_eq!(idx.encoded_quads_for_predicate_graph(2, Some(4)).len(), 2);
    assert_eq!(idx.encoded_quads_for_predicate_object_graph(2, 6, None).len(), 0);
    assert_eq!(idx.encoded_quads_for_object_graph(3, Some(4)).len(), 1);
    assert_eq!(
        idx.encoded_quads_for_pattern_inner(Some(1), Some(2), Some(3), Some(Some(4))).len(),
        1
    );
    assert_eq!(
        idx.encoded_quads_for_pattern_inner(Some(1), Some(2), Some(3), Some(Some(9))).len(),
        0
    );
    idx.remove_encoded(&n);
    assert!(!idx.contains_encoded(&n));
    assert_eq!(idx.encoded_quads_for_subject(1).len(), 1);
    idx.remove_encoded(&d);
    idx.remove_encoded(&other);
    assert!(idx.is_empty());
}

#[test]
fn memory_store() {
    let main_s = Term::BlankNode(BlankNode::new("a1b2".to_owned()));
    let main_p = NamedNode::new("http://example.com".to_owned());
    let main_o = integer_literal(1);
    let main_g = GraphName::BlankNode(BlankNode::new("c3d4".to_owned()));

    let default_quad = quad(&main_s, &main_p, main_o.duplicate(), GraphName::DefaultGraph);
    let named_quad = quad(&main_s, &main_p, main_o.duplicate(), main_g.duplicate());
    let default_quads = vec![
        quad(&main_s, &main_p, integer_literal(0), GraphName::DefaultGraph),
        default_quad.duplicate(),
        quad(&main_s, &main_p, integer_literal(200000000), GraphName::DefaultGraph),
    ];
    let all_quads = vec![
        quad(&main_s, &main_p, integer_literal(0), GraphName::DefaultGraph),
        default_quad.duplicate(),
        quad(&main_s, &main_p, integer_literal(200000000), GraphName::DefaultGraph),
        named_quad.duplicate(),
    ];

    let mut store = MemoryStore::new();
    assert!(store.is_empty());
    for t in &default_quads {
        store.insert(t);
    }

    let mut transaction = store.transaction();
    transaction.remove(default_quad.duplicate());
    transaction.insert(named_quad.duplicate());
    transaction.insert(default_quad.duplicate());
    transaction.commit(&mut store);

    let dg = GraphName::DefaultGraph;
    assert_eq!(store.len(), 4);
    assert!(!store.is_empty());
    assert!(same_quads(&store.iter().unwrap(), &all_quads));
    assert!(same_quads(&store.quads_for_pattern(Some(&main_s), None, None, None).unwrap(), &all_quads));
    assert!(same_quads(
        &store.quads_for_pattern(Some(&main_s), Some(&main_p), Some(&main_o), None).unwrap(),
        &[default_quad.duplicate(), named_quad.duplicate()]
    ));
    assert!(same_quads(
        &store.quads_for_pattern(Some(&main_s), Some(&main_p), Some(&main_o), Some(&dg)).unwrap(),
        &[default_quad.duplicate()]
    ));
    assert!(same_quads(
        &store.quads_for_pattern(Some(&main_s), Some(&main_p), Some(&main_o), Some(&main_g)).unwrap(),
        &[named_quad.duplicate()]
    ));
    assert!(same_quads(
        &store.quads_for_pattern(Some(&main_s), None, None, Some(&dg)).unwrap(),
        &default_quads
    ));
    assert!(same_quads(&store.quads_for_pattern(None, Some(&main_p), None, None).unwrap(), &all_quads));
    assert!(same_quads(
        &store.quads_for_pattern(None, None, Some(&main_o), None).unwrap(),
        &[default_quad.duplicate(), named_quad.duplicate()]
    ));
    assert!(same_quads(&store.quads_for_pattern(None, None, None, Some(&dg)).unwrap(), &default_quads));
    assert!(store.contains(&named_quad));
    store.remove(&named_quad);
    assert!(!store.contains(&named_quad));
    assert_eq!(store.len(), 3);
}

#[test]
fn memory_store_loads_graphs_and_long_strings() {
    let mut store = MemoryStore::new();
    let s = Term::NamedNode(NamedNode::new("http://example.com/a-rather-long-subject-iri".to_owned()));
    let p = NamedNode::new("http://example.com/p".to_owned());
    let o = Term::Literal(Literal::new_simple_literal(
        "a literal that is too long to be stored inline".to_owned(),
    ));
    let g = GraphName::NamedNode(NamedNode::new("http://example.com/g".to_owned()));
    let triple = Triple::new(s.duplicate(), p.duplicate(), o.duplicate());
    store.load_graph(&vec![triple], &g);
    let expected = quad(&s, &p, o.duplicate(), g.duplicate());
    assert!(store.contains(&expected));
    assert_eq!(store.iter().unwrap(), vec![expected.duplicate()]);
    let unknown = NamedNode::new("http://example.com/unknown".to_owned());
    assert!(store.quads_for_pattern(None, Some(&unknown), None, None).unwrap().is_empty());
    store.load_dataset(&vec![quad(&s, &p, integer_literal(7), GraphName::DefaultGraph)]);
    assert_eq!(store.len(), 2);
}

#[test]
fn memory_store_equality_compares_all_quads() {
    let s = Term::NamedNode(NamedNode::new("http://example.com/s".to_owned()));
    let p = NamedNode::new("http://example.com/p".to_owned());
    let g = GraphName::NamedNode(NamedNode::new("http://example.com/g".to_owned()));
    let in_g = quad(&s, &p, integer_literal(1), g.duplicate());
    let other_in_g = quad(&s, &p, integer_literal(2), g.duplicate());
    let in_default = quad(&s, &p, integer_literal(3), GraphName::DefaultGraph);

    let mut a = MemoryStore::new();
    a.insert(&in_g);
    a.insert(&other_in_g);
    a.insert(&in_default);
    let mut b = MemoryStore::new();
    b.insert(&other_in_g);
    b.insert(&in_g);
    assert!(!a.eq(&b));
    b.insert(&in_default);
    assert!(a.eq(&b));
    assert!(b.eq(&a));
    b.remove(&in_g);
    assert!(!a.eq(&b));
    assert!(!b.eq(&a));
    assert!(MemoryStore::new().eq(&MemoryStore::new()));
}

#[test]
fn memory_store_dumps() {
    let s = Term::NamedNode(NamedNode::new("http://example.com/s".to_owned()));
    let p = NamedNode::new("http://example.com/p".to_owned());
    let g = GraphName::NamedNode(NamedNode::new("http://example.com/g".to_owned()));
    let in_g = quad(&s, &p, integer_literal(1), g.duplicate());
    let in_default = quad(&s, &p, integer_literal(3), GraphName::DefaultGraph);
    let mut store = MemoryStore::new();
    store.insert(&in_g);
    store.insert(&in_default);
    assert_eq!(store.dump_graph(&g).unwrap(), vec![in_g.duplicate()]);
    assert_eq!(store.dump_graph(&GraphName::DefaultGraph).unwrap(), vec![in_default.duplicate()]);
    assert!(same_quads(&store.dump_dataset().unwrap(), &[in_g, in_default]));
}

#[test]
fn memory_store_loads_fresh_blank_nodes() {
    let b = Term::BlankNode(BlankNode::new("x".to_owned()));
    let p = NamedNode::new("http://example.com/p".to_owned());
    let g = GraphName::DefaultGraph;
    let doc = vec![
        quad(&b, &p, integer_literal(1), g.duplicate()),
        quad(&b, &p, integer_literal(2), g.duplicate()),
    ];
    let mut store = MemoryStore::new();
    store.load_dataset(&doc);
    store.load_dataset(&doc);
    assert_eq!(store.len(), 4);
    let all = store.iter().unwrap();
    let subjects: HashSet<String> = all
        .iter()
        .map(|q| match &q.subject {
            Term::BlankNode(n) => n.id.clone(),
            _ => panic!("a blank node subject"),
        })
        .collect();
    // One blank node per load, none of them the label of the document.
    assert_eq!(subjects.len(), 2);
    assert!(!subjects.contains("x"));
}

#[test]
fn memory_transaction_loads_fresh_blank_nodes() {
    let b = Term::BlankNode(BlankNode::new("x".to_owned()));
    let p = NamedNode::new("http://example.com/p".to_owned());
    let mut store = MemoryStore::new();
    let mut t = store.transaction();
    t.load_graph(&vec![Triple::new(b.duplicate(), p.duplicate(), integer_literal(1))], &GraphName::DefaultGraph)
        .unwrap();
    t.commit(&mut store);
    assert_eq!(store.len(), 1);
    assert!(!store.contains(&quad(&b, &p, integer_literal(1), GraphName::DefaultGraph)));
}
