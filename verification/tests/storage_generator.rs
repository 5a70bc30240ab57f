use vgstore::model::{GraphName, Literal, NamedNode, Quad, Term};
use vgstore::storage_generator::{
    get_node_id, get_step_iri_fields, StepType, Storage, StorageGenerator,
};
use vgstore::vg::{
    Handle, VariationGraph, FALDO_BEGIN, FALDO_END, RDF_TYPE, RDF_VALUE, VG_LINKS,
    VG_LINKS_FORWARD_TO_FORWARD, VG_LINKS_FORWARD_TO_REVERSE, VG_NODE, VG_NODE_PRED, VG_PATH,
    VG_PATH_PRED, VG_RANK,
};

const BASE: &str = "https://example.org";

fn iri(s: &str) -> Term {
    Term::NamedNode(NamedNode::new(s.to_string()))
}

fn pred(s: &str) -> NamedNode {
    NamedNode::new(s.to_string())
}

fn get_node(id: i64) -> Term {
    iri(&format!("{}/node/{}", BASE, id))
}

fn integer(v: i64) -> Term {
    Term::Literal(Literal::Typed {
        value: v.to_string(),
        datatype: pred("http://www.w3.org/2001/XMLSchema#integer"),
    })
}

fn generator(graph: VariationGraph) -> StorageGenerator {
    StorageGenerator::new(Storage::from_graph(graph))
}

/// One node, `1`, of sequence `CAAATAAG`.
fn red_graph() -> VariationGraph {
    let mut g = VariationGraph::new();
    assert!(g.add_node(1, "CAAATAAG".to_string()));
    g
}

/// Two nodes with a link from the forward side of `1` to the forward side
/// of `2`.
fn double_graph() -> VariationGraph {
    let mut g = VariationGraph::new();
    assert!(g.add_node(1, "CAAATAAG".to_string()));
    assert!(g.add_node(2, "A".to_string()));
    assert!(g.add_right_neighbor(1, Handle { id: 2, is_reverse: false }));
    g
}

#[test]
fn test_single_node() {
    let gen = generator(red_graph());
    let node_triple = gen.nodes(None, None, None, &GraphName::DefaultGraph);
    let node_id_quad = Quad::new(get_node(1), pred(RDF_TYPE), iri(VG_NODE), GraphName::DefaultGraph);
    let sequence_quad = Quad::new(
        get_node(1),
        pred(RDF_VALUE),
        Term::Literal(Literal::Simple("CAAATAAG".to_string())),
        GraphName::DefaultGraph,
    );
    assert_eq!(node_triple.len(), 2);
    assert!(node_triple.contains(&node_id_quad));
    assert!(node_triple.contains(&sequence_quad));
}

#[test]
fn test_single_node_non_generic() {
    let gen = generator(red_graph());
    let node_1 = get_node(1);
    let node_triple = gen.nodes(
        Some(&node_1),
        Some(&iri(RDF_TYPE)),
        Some(&iri(VG_NODE)),
        &GraphName::DefaultGraph,
    );
    let node_id_quad = Quad::new(get_node(1), pred(RDF_TYPE), iri(VG_NODE), GraphName::DefaultGraph);
    assert_eq!(node_triple.len(), 1);
    assert!(node_triple.contains(&node_id_quad));
}

#[test]
fn test_double_node() {
    let gen = generator(double_graph());
    let node_triple = gen.nodes(None, None, None, &GraphName::DefaultGraph);
    let links_quad = Quad::new(get_node(1), pred(VG_LINKS), get_node(2), GraphName::DefaultGraph);
    let links_f2f_quad = Quad::new(
        get_node(1),
        pred(VG_LINKS_FORWARD_TO_FORWARD),
        get_node(2),
        GraphName::DefaultGraph,
    );
    assert_eq!(node_triple.len(), 6);
    assert!(node_triple.contains(&links_quad));
    assert!(node_triple.contains(&links_f2f_quad));
}

#[test]
fn generator_node_ids_are_read_from_iris() {
    assert_eq!(get_node_id(&get_node(42)), Some(42));
    assert_eq!(get_node_id(&iri("https://example.org/node/+7")), Some(7));
    assert_eq!(get_node_id(&iri("https://example.org/node/x")), None);
    assert_eq!(get_node_id(&iri("https://example.org/path/42")), None);
    assert_eq!(get_node_id(&iri("42")), None);
    assert_eq!(get_node_id(&iri("https://example.org/node/18446744073709551615")), Some(u64::MAX));
    assert_eq!(get_node_id(&iri("https://example.org/node/18446744073709551616")), None);
    assert_eq!(get_node_id(&Term::Literal(Literal::Simple("node/1".to_string()))), None);
}

#[test]
fn generator_step_iri_fields() {
    match get_step_iri_fields(Some(&iri("https://example.org/path/x/step/3"))) {
        Some(StepType::Rank(name, rank)) => {
            assert_eq!(name, "x");
            assert_eq!(rank, 3);
        }
        _ => panic!("a step IRI by rank"),
    }
    match get_step_iri_fields(Some(&iri("https://example.org/path/y/position/10"))) {
        Some(StepType::Position(name, position)) => {
            assert_eq!(name, "y");
            assert_eq!(position, 10);
        }
        _ => panic!("a step IRI by position"),
    }
    assert!(get_step_iri_fields(Some(&iri("https://example.org/node/1"))).is_none());
    assert!(get_step_iri_fields(Some(&iri("https://example.org/path/x/other/3"))).is_none());
    assert!(get_step_iri_fields(None).is_none());
}

#[test]
fn generator_links_follow_orientation() {
    let mut g = VariationGraph::new();
    assert!(g.add_node(1, "AC".to_string()));
    assert!(g.add_node(2, "G".to_string()));
    assert!(g.add_right_neighbor(1, Handle { id: 2, is_reverse: true }));
    let gen = generator(g);
    let quads = gen.quads_for_pattern(
        Some(&get_node(1)),
        Some(&iri(VG_LINKS_FORWARD_TO_REVERSE)),
        None,
        &GraphName::DefaultGraph,
    );
    assert_eq!(
        quads,
        vec![Quad::new(
            get_node(1),
            pred(VG_LINKS_FORWARD_TO_REVERSE),
            get_node(2),
            GraphName::DefaultGraph
        )]
    );
    let quads = gen.quads_for_pattern(
        Some(&get_node(1)),
        Some(&iri(VG_LINKS_FORWARD_TO_FORWARD)),
        None,
        &GraphName::DefaultGraph,
    );
    assert!(quads.is_empty());
}

#[test]
fn generator_blank_nodes_and_type_with_object_give_nothing() {
    let gen = generator(double_graph());
    let blank = Term::BlankNode(vgstore::model::BlankNode::new("b".to_string()));
    assert!(gen
        .quads_for_pattern(Some(&blank), Some(&iri(VG_LINKS)), None, &GraphName::DefaultGraph)
        .is_empty());
    assert!(gen
        .quads_for_pattern(None, Some(&iri(RDF_TYPE)), Some(&iri(VG_NODE)), &GraphName::DefaultGraph)
        .is_empty());
    assert!(gen
        .quads_for_pattern(None, Some(&iri(VG_PATH)), None, &GraphName::DefaultGraph)
        .is_empty());
}

#[test]
fn generator_links_of_all_nodes() {
    let gen = generator(double_graph());
    let quads = gen.quads_for_pattern(None, Some(&iri(VG_LINKS)), None, &GraphName::DefaultGraph);
    assert_eq!(
        quads,
        vec![Quad::new(get_node(1), pred(VG_LINKS), get_node(2), GraphName::DefaultGraph)]
    );
}

fn path_graph() -> VariationGraph {
    let mut g = VariationGraph::new();
    assert!(g.add_node(1, "CAAATAAG".to_string()));
    assert!(g.add_node(2, "AC".to_string()));
    assert!(g.add_path("x".to_string(), vec![Handle { id: 1, is_reverse: false }]));
    assert!(g.add_path(
        "y".to_string(),
        vec![Handle { id: 1, is_reverse: false }, Handle { id: 2, is_reverse: true }]
    ));
    g
}

#[test]
fn generator_graph_builder_refuses_bad_input() {
    let mut g = path_graph();
    assert!(!g.add_node(1, "A".to_string()));
    assert!(!g.add_right_neighbor(9, Handle { id: 1, is_reverse: false }));
    assert!(!g.add_path("x".to_string(), vec![Handle { id: 1, is_reverse: false }]));
    assert!(!g.add_path("z".to_string(), vec![]));
    assert!(!g.add_path("z".to_string(), vec![Handle { id: 9, is_reverse: false }]));
    assert_eq!(g.path_count(), 2);
    assert_eq!(g.node_len(1), 8);
}

#[test]
fn generator_step_by_rank() {
    let gen = generator(path_graph());
    let step = iri("https://example.org/path/y/step/2");
    let quads = gen.steps(Some(&step), None, None, &GraphName::DefaultGraph);
    let reverse = Quad::new(
        step.duplicate(),
        pred("http://biohackathon.org/resource/vg#reverseOfNode"),
        get_node(2),
        GraphName::DefaultGraph,
    );
    let rank = Quad::new(step.duplicate(), pred(VG_RANK), integer(2), GraphName::DefaultGraph);
    let position = Quad::new(step.duplicate(), pred(VG_RANK), integer(9), GraphName::DefaultGraph);
    let path = Quad::new(
        step.duplicate(),
        pred(VG_PATH_PRED),
        iri("https://example.org/path/y"),
        GraphName::DefaultGraph,
    );
    let begin = Quad::new(
        step.duplicate(),
        pred(FALDO_BEGIN),
        iri("https://example.org/path/y/position/9"),
        GraphName::DefaultGraph,
    );
    let end = Quad::new(
        step.duplicate(),
        pred(FALDO_END),
        iri("https://example.org/path/y/position/11"),
        GraphName::DefaultGraph,
    );
    assert_eq!(quads.len(), 8);
    assert!(quads.contains(&reverse));
    assert!(quads.contains(&rank));
    assert!(quads.contains(&position));
    assert!(quads.contains(&path));
    assert!(quads.contains(&begin));
    assert!(quads.contains(&end));
    assert!(!quads.iter().any(|q| q.predicate.iri == VG_NODE_PRED));
}

#[test]
fn generator_step_by_rank_with_object() {
    let gen = generator(path_graph());
    let step = iri("https://example.org/path/x/step/1");
    let quads = gen.steps(Some(&step), Some(&iri(VG_RANK)), Some(&integer(1)), &GraphName::DefaultGraph);
    assert_eq!(
        quads,
        vec![Quad::new(step.duplicate(), pred(VG_RANK), integer(1), GraphName::DefaultGraph)]
    );
    let quads = gen.steps(Some(&step), Some(&iri(VG_RANK)), Some(&integer(2)), &GraphName::DefaultGraph);
    assert!(quads.is_empty());
}

#[test]
fn generator_step_by_position() {
    let gen = generator(path_graph());
    let subject = iri("https://example.org/path/y/position/8");
    let quads = gen.steps(Some(&subject), Some(&iri(VG_RANK)), None, &GraphName::DefaultGraph);
    // The step at offset 8 is the second one; no step IRI is the subject,
    // so nothing is given.
    assert!(quads.is_empty());
    let quads = gen.steps(
        Some(&iri("https://example.org/path/y/position/20")),
        None,
        None,
        &GraphName::DefaultGraph,
    );
    assert!(quads.is_empty());
}

#[test]
fn generator_first_steps_without_subject() {
    let mut g = VariationGraph::new();
    assert!(g.add_node(1, "CAAATAAG".to_string()));
    assert!(g.add_path("x".to_string(), vec![Handle { id: 1, is_reverse: false }]));
    let gen = generator(g);
    let quads = gen.steps(None, Some(&iri(FALDO_END)), None, &GraphName::DefaultGraph);
    assert_eq!(
        quads,
        vec![Quad::new(
            iri("https://example.org/path/x/step/1"),
            pred(FALDO_END),
            iri("https://example.org/path/x/position/9"),
            GraphName::DefaultGraph
        )]
    );
    let all = gen.quads_for_pattern(None, Some(&iri(VG_RANK)), None, &GraphName::DefaultGraph);
    assert_eq!(
        all,
        vec![Quad::new(
            iri("https://example.org/path/x/step/1"),
            pred(VG_RANK),
            integer(1),
            GraphName::DefaultGraph
        )]
    );
}

#[test]
fn generator_paths_are_typed() {
    let gen = generator(path_graph());
    let quads = gen.paths(None, None, None, &GraphName::DefaultGraph);
    assert_eq!(
        quads,
        vec![
            Quad::new(iri("https://example.org/path/x"), pred(RDF_TYPE), iri(VG_PATH), GraphName::DefaultGraph),
            Quad::new(iri("https://example.org/path/y"), pred(RDF_TYPE), iri(VG_PATH), GraphName::DefaultGraph),
        ]
    );
    let quads = gen.paths(Some(&iri("https://example.org/path/y")), None, None, &GraphName::DefaultGraph);
    assert_eq!(quads.len(), 1);
}

#[test]
fn reader_links_of_a_snapshot() {
    let storage = Storage::from_graph(double_graph());
    let reader = storage.snapshot();
    let g = GraphName::DefaultGraph;
    let links = reader.quads_for_pattern(None, Some(&iri(VG_LINKS)), None, Some(&g));
    let link = Quad::new(get_node(1), pred(VG_LINKS), get_node(2), GraphName::DefaultGraph);
    assert_eq!(links, vec![link]);
    let from_one = reader.quads_for_pattern(
        Some(&get_node(1)),
        Some(&iri(VG_LINKS_FORWARD_TO_FORWARD)),
        Some(&get_node(2)),
        Some(&g),
    );
    assert_eq!(
        from_one,
        vec![Quad::new(
            get_node(1),
            pred(VG_LINKS_FORWARD_TO_FORWARD),
            get_node(2),
            GraphName::DefaultGraph
        )]
    );
    let from_two = reader.quads_for_pattern(Some(&get_node(2)), Some(&iri(VG_LINKS)), None, Some(&g));
    assert!(from_two.is_empty());
}

#[test]
fn reader_answers_only_link_patterns() {
    let reader = Storage::from_graph(double_graph()).snapshot();
    let g = GraphName::DefaultGraph;
    assert!(reader.quads_for_pattern(Some(&get_node(1)), None, None, Some(&g)).is_empty());
    assert!(reader.quads_for_pattern(None, Some(&iri(RDF_VALUE)), None, Some(&g)).is_empty());
    assert!(reader
        .quads_for_pattern(None, Some(&iri(RDF_TYPE)), Some(&iri(VG_NODE)), Some(&g))
        .is_empty());
    assert!(reader.quads_for_pattern(None, Some(&iri(VG_RANK)), None, Some(&g)).is_empty());
    let blank = Term::BlankNode(vgstore::model::BlankNode::new("b".to_string()));
    assert!(reader.quads_for_pattern(Some(&blank), Some(&iri(VG_LINKS)), None, Some(&g)).is_empty());
    assert_eq!(reader.len().unwrap(), 0);
    assert!(reader.is_empty().unwrap());
    assert!(reader.quads().is_empty());
    assert!(reader.named_graphs().is_empty());
    assert!(reader.validate().is_ok());
}

#[test]
fn generator_steps_walk_every_step() {
    let mut g = VariationGraph::new();
    assert!(g.add_node(1, "CAAATAAG".to_string()));
    assert!(g.add_node(2, "AC".to_string()));
    assert!(g.add_node(3, "T".to_string()));
    assert!(g.add_path(
        "z".to_string(),
        vec![
            Handle { id: 1, is_reverse: false },
            Handle { id: 2, is_reverse: false },
            Handle { id: 3, is_reverse: false }
        ]
    ));
    let gen = generator(g);
    let step = |k: i64| iri(&format!("https://example.org/path/z/step/{}", k));
    let ranks = gen.steps(None, Some(&iri(VG_RANK)), None, &GraphName::DefaultGraph);
    assert_eq!(
        ranks,
        vec![
            Quad::new(step(1), pred(VG_RANK), integer(1), GraphName::DefaultGraph),
            Quad::new(step(2), pred(VG_RANK), integer(2), GraphName::DefaultGraph),
            Quad::new(step(3), pred(VG_RANK), integer(3), GraphName::DefaultGraph),
        ]
    );
    let ends = gen.steps(None, Some(&iri(FALDO_END)), None, &GraphName::DefaultGraph);
    assert_eq!(
        ends,
        vec![
            Quad::new(step(1), pred(FALDO_END), iri("https://example.org/path/z/position/9"), GraphName::DefaultGraph),
            Quad::new(step(2), pred(FALDO_END), iri("https://example.org/path/z/position/11"), GraphName::DefaultGraph),
            Quad::new(step(3), pred(FALDO_END), iri("https://example.org/path/z/position/12"), GraphName::DefaultGraph),
        ]
    );
    let third = gen.steps(Some(&step(3)), Some(&iri(FALDO_BEGIN)), None, &GraphName::DefaultGraph);
    assert_eq!(
        third,
        vec![Quad::new(step(3), pred(FALDO_BEGIN), iri("https://example.org/path/z/position/11"), GraphName::DefaultGraph)]
    );
    let third_node = gen.steps(Some(&step(3)), Some(&iri(VG_NODE_PRED)), None, &GraphName::DefaultGraph);
    assert_eq!(
        third_node,
        vec![Quad::new(step(3), pred(VG_NODE_PRED), get_node(3), GraphName::DefaultGraph)]
    );
}
