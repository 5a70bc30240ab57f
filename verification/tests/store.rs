use vgstore::model::{BlankNode, GraphName, Literal, NamedNode, NamedOrBlankNode, Quad, Term, Triple};
use vgstore::store::{RocksDbStore, SledStore};
use vgstore::term_encoder::XSD_INTEGER;
use vgstore::transaction::{MemoryTransaction, SledTransaction};

fn ex() -> NamedNode {
    NamedNode::new("http://example.com".to_owned())
}

fn integer(i: i64) -> Term {
    Term::Literal(Literal::new_typed_literal(i.to_string(), NamedNode::new(XSD_INTEGER.to_owned())))
}

fn subject() -> Term {
    Term::BlankNode(BlankNode::new("s1".to_owned()))
}

fn graph() -> GraphName {
    GraphName::BlankNode(BlankNode::new("g1".to_owned()))
}

fn quad(o: i64, g: GraphName) -> Quad {
    Quad::new(subject(), ex(), integer(o), g)
}

#[test]
fn insert_contains_remove() {
    let mut store = RocksDbStore::open().unwrap();
    assert!(store.is_empty());
    let q = quad(1, GraphName::DefaultGraph);
    store.insert(&q).unwrap();
    assert!(store.contains(&q).unwrap());
    assert_eq!(store.len(), 1);
    store.insert(&q).unwrap();
    assert_eq!(store.len(), 1);
    store.remove(&q).unwrap();
    assert!(!store.contains(&q).unwrap());
    assert!(store.is_empty());
    store.remove(&q).unwrap();
    assert_eq!(store.len(), 0);
}

#[test]
fn named_graphs_and_clear_graph() {
    let mut store = RocksDbStore::new();
    let default_quad = quad(1, GraphName::DefaultGraph);
    let named_quad = quad(1, graph());
    store.insert(&default_quad).unwrap();
    store.insert(&named_quad).unwrap();
    assert_eq!(store.len(), 2);
    let g = NamedOrBlankNode::BlankNode(BlankNode::new("g1".to_owned()));
    assert!(store.contains_named_graph(&g).unwrap());
    assert_eq!(store.named_graphs().unwrap(), vec![NamedOrBlankNode::BlankNode(BlankNode::new("g1".to_owned()))]);

    store.clear_graph(&graph()).unwrap();
    assert!(!store.contains(&named_quad).unwrap());
    assert!(store.contains(&default_quad).unwrap());
    assert!(store.contains_named_graph(&g).unwrap());

    store.insert(&named_quad).unwrap();
    store.remove_named_graph(&g).unwrap();
    assert!(!store.contains_named_graph(&g).unwrap());
    assert!(!store.contains(&named_quad).unwrap());
    assert_eq!(store.len(), 1);

    store.clear_graph(&GraphName::DefaultGraph).unwrap();
    assert!(store.is_empty());
}

#[test]
fn insert_named_graph_without_quads() {
    let mut store = RocksDbStore::new();
    let g = NamedOrBlankNode::NamedNode(NamedNode::new("http://example.com/g".to_owned()));
    store.insert_named_graph(&g).unwrap();
    assert!(store.contains_named_graph(&g).unwrap());
    assert!(store.is_empty());
    store.clear().unwrap();
    assert!(!store.contains_named_graph(&g).unwrap());
}

#[test]
fn dump_after_load() {
    let mut store = RocksDbStore::new();
    let quads = vec![quad(0, GraphName::DefaultGraph), quad(1, GraphName::DefaultGraph), quad(200000000, graph())];
    store.load_dataset(&quads).unwrap();
    assert_eq!(store.len(), 3);
    let dumped = store.dump_dataset().unwrap();
    assert_eq!(dumped.len(), 3);
    // One fresh blank node stands for the label `s1` in every quad, and
    // another for the graph label `g1`.
    let fresh_subject = &dumped[0].subject;
    assert!(matches!(fresh_subject, Term::BlankNode(b) if b.id != "s1"));
    assert!(dumped.iter().all(|q| &q.subject == fresh_subject));
    let fresh_graph = dumped
        .iter()
        .find(|q| q.graph_name != GraphName::DefaultGraph)
        .map(|q| q.graph_name.duplicate())
        .unwrap();
    assert!(matches!(&fresh_graph, GraphName::BlankNode(b) if b.id != "g1"));
    assert_eq!(store.dump_graph(&fresh_graph).unwrap().len(), 1);
    assert!(store.dump_graph(&graph()).unwrap().is_empty());

    // The same label in another document is another blank node.
    let triples = vec![Triple::new(subject(), ex(), integer(7))];
    store.load_graph(&triples, &GraphName::NamedNode(ex())).unwrap();
    assert_eq!(store.len(), 4);
    let loaded = store.dump_graph(&GraphName::NamedNode(ex())).unwrap();
    assert_eq!(loaded.len(), 1);
    assert!(matches!(&loaded[0].subject, Term::BlankNode(_)));
    assert!(&loaded[0].subject != fresh_subject);
    assert_eq!(loaded[0].object, integer(7));
}

#[test]
fn load_keeps_terms_without_blank_nodes() {
    let mut store = RocksDbStore::new();
    let s = Term::NamedNode(NamedNode::new("http://example.com/s".to_owned()));
    let q = Quad::new(s, ex(), integer(5), GraphName::NamedNode(ex()));
    store.load_dataset(&vec![q.duplicate()]).unwrap();
    assert!(store.contains(&q).unwrap());
    assert_eq!(store.dump_dataset().unwrap(), vec![q]);
}

#[test]
fn rocksdb_transaction_applies_in_order() {
    let mut store = RocksDbStore::new();
    let default_quad = quad(1, GraphName::DefaultGraph);
    let named_quad = quad(1, graph());
    store.insert(&default_quad).unwrap();
    let mut t = store.transaction();
    t.remove(&default_quad).unwrap();
    t.insert(&named_quad).unwrap();
    t.insert(&default_quad).unwrap();
    assert_eq!(store.len(), 1);
    t.commit(&mut store).unwrap();
    assert_eq!(store.len(), 2);
    assert!(store.contains(&default_quad).unwrap());
    assert!(store.contains(&named_quad).unwrap());
}

#[test]
fn rolled_back_transaction_changes_nothing() {
    let mut store = RocksDbStore::new();
    let mut t = store.transaction();
    t.insert(&quad(3, GraphName::DefaultGraph)).unwrap();
    drop(t);
    assert!(store.is_empty());
}

#[test]
fn memory_and_sled_transactions() {
    let mut t = MemoryTransaction::new();
    t.insert(quad(1, GraphName::DefaultGraph));
    t.remove(quad(1, GraphName::DefaultGraph));
    t.load_dataset(vec![quad(2, graph())]).unwrap();
    t.load_graph(&vec![Triple::new(subject(), ex(), integer(3))], &GraphName::DefaultGraph).unwrap();

    let mut store = SledStore::new();
    store.insert(&quad(5, GraphName::DefaultGraph)).unwrap();
    let mut s = SledTransaction::new();
    s.insert(&quad(1, GraphName::DefaultGraph)).unwrap();
    s.load_dataset(&vec![quad(2, graph())]).unwrap();
    s.remove(&quad(1, GraphName::DefaultGraph)).unwrap();
    s.remove(&quad(5, GraphName::DefaultGraph)).unwrap();
    assert!(store.contains(&quad(5, GraphName::DefaultGraph)).unwrap());
    s.commit(&mut store).unwrap();
    assert_eq!(store.len(), 1);
    // The loaded quad has fresh blank nodes in place of `s1` and `g1`.
    assert!(!store.contains(&quad(2, graph())).unwrap());
    let loaded = store.dump_dataset().unwrap();
    assert_eq!(loaded[0].object, integer(2));
    assert!(matches!(&loaded[0].graph_name, GraphName::BlankNode(b) if b.id != "g1"));
}

#[test]
fn sled_transaction_commits_into_the_store() {
    let mut store = SledStore::new();
    let ex_term = Term::NamedNode(ex());
    let q = Quad::new(ex_term.duplicate(), ex(), ex_term.duplicate(), GraphName::NamedNode(ex()));
    let mut t = SledTransaction::new();
    t.insert(&q).unwrap();
    t.commit(&mut store).unwrap();
    assert!(store.contains(&q).unwrap());
    assert!(store.contains_named_graph(&NamedOrBlankNode::NamedNode(ex())).unwrap());
}

#[test]
fn stored_versions_are_checked() {
    let mut store = RocksDbStore::new();
    store.insert(&quad(1, GraphName::NamedNode(ex()))).unwrap();
    assert!(store.check_version().is_ok());
    assert!(store.check_version().is_ok());

    store.write_version(0);
    assert!(store.check_version().is_ok());
    assert!(store.contains_named_graph(&NamedOrBlankNode::NamedNode(ex())).unwrap());
    assert!(store.contains(&quad(1, GraphName::NamedNode(ex()))).unwrap());

    store.write_version(1);
    assert!(store.check_version().is_ok());

    store.write_version(2);
    assert!(matches!(store.check_version(), Err(vgstore::error::StorageError::Corruption(_))));
    assert!(matches!(store.check_version(), Err(vgstore::error::StorageError::Corruption(_))));
}
