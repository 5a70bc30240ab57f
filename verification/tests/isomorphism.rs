use vgstore::isomorphism::{canonical_form, sort_byte_strings};
use vgstore::memory::MemoryStore;
use vgstore::model::{BlankNode, GraphName, Literal, NamedNode, Quad, Term};

fn blank(id: &str) -> Term {
    Term::BlankNode(BlankNode::new(id.to_owned()))
}

fn iri(s: &str) -> NamedNode {
    NamedNode::new(s.to_owned())
}

fn store_of(quads: &[Quad]) -> MemoryStore {
    let mut store = MemoryStore::new();
    for q in quads {
        store.insert(q);
    }
    store
}

fn cycle(a: &str, b: &str) -> Vec<Quad> {
    let p = iri("http://example.com/p");
    vec![
        Quad::new(blank(a), p.duplicate(), blank(b), GraphName::DefaultGraph),
        Quad::new(blank(b), p.duplicate(), blank(a), GraphName::DefaultGraph),
    ]
}

#[test]
fn isomorphism_sort_byte_strings() {
    let sorted = sort_byte_strings(vec![vec![2, 1], vec![1, 9], vec![2], vec![], vec![1, 9]]);
    assert_eq!(sorted, vec![vec![], vec![1, 9], vec![1, 9], vec![2], vec![2, 1]]);
}

#[test]
fn isomorphism_ground_quads_are_their_own_lines() {
    let p = iri("http://example.com/p");
    let quads = vec![
        Quad::new(
            Term::NamedNode(iri("http://example.com/s")),
            p.duplicate(),
            Term::Literal(Literal::new_simple_literal("b\"c".to_owned())),
            GraphName::NamedNode(iri("http://example.com/g")),
        ),
        Quad::new(
            Term::NamedNode(iri("http://example.com/a")),
            p.duplicate(),
            Term::Literal(Literal::new_language_tagged_literal_unchecked("x".to_owned(), "en".to_owned())),
            GraphName::DefaultGraph,
        ),
    ];
    let lines: Vec<String> = canonical_form(&quads).into_iter().map(|l| String::from_utf8(l).unwrap()).collect();
    assert_eq!(
        lines,
        vec![
            "<http://example.com/a> <http://example.com/p> \"x\"@en".to_owned(),
            "<http://example.com/s> <http://example.com/p> \"b\\\"c\" <http://example.com/g>".to_owned(),
        ]
    );
}

#[test]
fn isomorphism_blank_nodes_are_written_by_hash() {
    let p = iri("http://example.com/p");
    let quads = vec![Quad::new(blank("a"), p.duplicate(), blank("b"), GraphName::DefaultGraph)];
    let lines: Vec<String> = canonical_form(&quads).into_iter().map(|l| String::from_utf8(l).unwrap()).collect();
    assert_eq!(lines.len(), 1);
    let parts: Vec<&str> = lines[0].split(' ').collect();
    assert_eq!(parts.len(), 3);
    assert!(parts[0].starts_with("_:") && parts[0] != "_:a");
    assert!(parts[2].starts_with("_:") && parts[2] != "_:b");
    assert_ne!(parts[0], parts[2]);
    assert!(parts[0][2..].chars().all(|c| c.is_ascii_hexdigit() && !c.is_ascii_uppercase()));
    assert_eq!(parts[1], "<http://example.com/p>");
    let renamed = vec![Quad::new(blank("x"), p.duplicate(), blank("y"), GraphName::DefaultGraph)];
    assert_eq!(canonical_form(&quads), canonical_form(&renamed));
}

#[test]
fn isomorphism_renamed_cycles_are_isomorphic() {
    let a = store_of(&cycle("a", "b"));
    let b = store_of(&cycle("x", "y"));
    assert!(a.is_isomorphic(&b));
    assert!(b.is_isomorphic(&a));
    assert!(a.is_isomorphic(&a));
}

#[test]
fn isomorphism_canonical_form_ignores_order_and_labels() {
    let mut reversed = cycle("u", "v");
    reversed.reverse();
    assert_eq!(canonical_form(&cycle("a", "b")), canonical_form(&reversed));
}

#[test]
fn isomorphism_different_shapes_are_not_isomorphic() {
    let p = iri("http://example.com/p");
    let a = store_of(&cycle("a", "b"));
    let loops = store_of(&[
        Quad::new(blank("a"), p.duplicate(), blank("a"), GraphName::DefaultGraph),
        Quad::new(blank("b"), p.duplicate(), blank("b"), GraphName::DefaultGraph),
    ]);
    assert!(!a.is_isomorphic(&loops));
    let one = store_of(&[Quad::new(blank("a"), p.duplicate(), blank("b"), GraphName::DefaultGraph)]);
    assert!(!a.is_isomorphic(&one));
    let named = store_of(&[Quad::new(
        Term::NamedNode(iri("http://example.com/a")),
        p.duplicate(),
        blank("b"),
        GraphName::DefaultGraph,
    )]);
    assert!(!one.is_isomorphic(&named));
    assert!(MemoryStore::new().is_isomorphic(&MemoryStore::new()));
    assert!(!MemoryStore::new().is_isomorphic(&one));
}

#[test]
fn isomorphism_blank_graph_names() {
    let p = iri("http://example.com/p");
    let s = Term::NamedNode(iri("http://example.com/s"));
    let a = store_of(&[Quad::new(
        s.duplicate(),
        p.duplicate(),
        blank("o"),
        GraphName::BlankNode(BlankNode::new("g".to_owned())),
    )]);
    let b = store_of(&[Quad::new(
        s.duplicate(),
        p.duplicate(),
        blank("h"),
        GraphName::BlankNode(BlankNode::new("k".to_owned())),
    )]);
    let c = store_of(&[Quad::new(
        s.duplicate(),
        p.duplicate(),
        blank("o"),
        GraphName::BlankNode(BlankNode::new("o".to_owned())),
    )]);
    assert!(a.is_isomorphic(&b));
    assert!(!a.is_isomorphic(&c));
}
