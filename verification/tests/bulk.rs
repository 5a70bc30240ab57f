use vgstore::bulk::{progress_reached, FileBulkLoader, StorageBulkLoader};
use vgstore::error::StorageError;
use vgstore::model::{BlankNode, GraphName, Literal, NamedNode, Quad, Term};
use vgstore::storage_generator::Storage;

fn quad(o: &str, g: GraphName) -> Quad {
    Quad::new(
        Term::NamedNode(NamedNode::new("http://example.com/a-subject-with-a-long-iri".to_owned())),
        NamedNode::new("http://example.com/p".to_owned()),
        Term::Literal(Literal::new_simple_literal(o.to_owned())),
        g,
    )
}

fn graph() -> GraphName {
    GraphName::NamedNode(NamedNode::new("http://example.com/g".to_owned()))
}

#[test]
fn bulk_batch_plan_defaults() {
    let loader = StorageBulkLoader::new(Storage::new());
    assert!(matches!(loader.batch_plan(), Ok((2, 1_000_000))));
}

#[test]
fn bulk_batch_plan_from_memory_bound() {
    let loader = StorageBulkLoader::new(Storage::new())
        .set_num_threads(4)
        .set_max_memory_size_in_megabytes(100);
    assert!(matches!(loader.batch_plan(), Ok((4, 25_000))));
}

#[test]
fn bulk_batch_plan_refusals() {
    let one_thread = StorageBulkLoader::new(Storage::new()).set_num_threads(1);
    match one_thread.batch_plan() {
        Err(StorageError::Other(m)) => assert_eq!(m, "The bulk loader needs at least 2 threads"),
        _ => panic!("one thread is refused"),
    }
    let small = StorageBulkLoader::new(Storage::new()).set_max_memory_size_in_megabytes(10);
    match small.batch_plan() {
        Err(StorageError::Other(m)) => assert_eq!(
            m,
            "The bulk loader memory bound is too low. It needs at least 100MB"
        ),
        _ => panic!("a small memory bound is refused"),
    }
}

#[test]
fn bulk_batch_counts_distinct_quads() {
    let loader = StorageBulkLoader::new(Storage::new());
    let quads = vec![
        quad("one", GraphName::DefaultGraph),
        quad("two", GraphName::DefaultGraph),
        quad("one", GraphName::DefaultGraph),
        quad("one", graph()),
        quad("a value long enough to be kept by its hash", graph()),
        quad("one", graph()),
    ];
    assert_eq!(loader.load_batch(&quads).unwrap(), 4);
    assert_eq!(loader.load_batch(&Vec::new()).unwrap(), 0);
}

#[test]
fn bulk_file_loader_accumulates() {
    let mut batch = FileBulkLoader::new();
    let blank = GraphName::BlankNode(BlankNode::new("b".to_owned()));
    assert_eq!(batch.load(&vec![quad("x", graph())]).unwrap(), 1);
    assert_eq!(batch.load(&vec![quad("x", graph()), quad("x", blank)]).unwrap(), 2);
    assert_eq!(batch.len(), 2);
}

#[test]
fn bulk_progress_steps() {
    assert!(!progress_reached(999_999, 0));
    assert!(progress_reached(1_000_000, 999_999));
    assert!(progress_reached(2_500_000, 1_000_000));
    assert!(!progress_reached(1_500_000, 1_000_000));
    assert!(!progress_reached(0, 0));
}
