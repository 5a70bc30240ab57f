//! Transactions: changes gathered apart from a store and applied to it at
//! once when the transaction commits, or dropped when it is rolled back.

use vstd::prelude::*;
use crate::error::StorageError;
use crate::model::{GraphName, Quad, Triple};
use crate::numeric_encoder::{EncodedQuad, EncodedTerm};
use crate::store::{storable, strings_map, RocksDbStore};
use crate::relabel::{loaded_quads, loaded_triples, relabel_quads, relabel_triples};
use crate::memory::MemoryStore;
use crate::str_hash::StrHash;
use crate::term_encoder::{
    encode_graph_name_spec, encode_quad_spec, insert_quad_strings, lemma_encode_graph_name_wf,
    lemma_encode_term_wf, pair_views, quad_strings_spec, TermEncoder,
};

verus! {

/// A change of a transaction on encoded quads.
pub enum EncodedOp {
    Insert(EncodedQuad),
    Remove(EncodedQuad),
}

/// The quads after the changes, applied in order.
pub open spec fn apply_ops(quads: Set<EncodedQuad>, ops: Seq<EncodedOp>) -> Set<EncodedQuad>
    decreases ops.len(),
{
    if ops.len() == 0 {
        quads
    } else {
        match ops.last() {
            EncodedOp::Insert(q) => apply_ops(quads, ops.drop_last()).insert(q),
            EncodedOp::Remove(q) => apply_ops(quads, ops.drop_last()).remove(q),
        }
    }
}

/// The named graphs after the changes, applied in order.
pub open spec fn apply_graph_ops(graphs: Set<EncodedTerm>, ops: Seq<EncodedOp>) -> Set<EncodedTerm>
    decreases ops.len(),
{
    if ops.len() == 0 {
        graphs
    } else {
        match ops.last() {
            EncodedOp::Insert(q) => if q.graph_name is DefaultGraph {
                apply_graph_ops(graphs, ops.drop_last())
            } else {
                apply_graph_ops(graphs, ops.drop_last()).insert(q.graph_name)
            },
            EncodedOp::Remove(_) => apply_graph_ops(graphs, ops.drop_last()),
        }
    }
}

/// Allows inserting and deleting quads during a transaction with the
/// [`RocksDbStore`]: the changes are kept in memory until they are applied.
pub struct RocksDbTransaction {
    ops: Vec<EncodedOp>,
    new_strings: Vec<(StrHash, String)>,
}

impl RocksDbTransaction {
    /// The changes, in order.
    pub closed spec fn ops(self) -> Seq<EncodedOp> {
        self.ops@
    }

    /// The strings that the changes bring, in order.
    pub closed spec fn strings(self) -> Seq<(StrHash, Seq<char>)> {
        pair_views(self.new_strings@)
    }

    /// Whether every change is on a quad that can be stored.
    pub closed spec fn wf(self) -> bool {
        forall|i: int|
            0 <= i < self.ops@.len() ==> match #[trigger] self.ops@[i] {
                EncodedOp::Insert(q) => storable(q),
                EncodedOp::Remove(q) => storable(q),
            }
    }

    /// A transaction without changes.
    pub fn new() -> (r: Self)
        ensures
            r.wf(),
            r.ops() == Seq::<EncodedOp>::empty(),
            r.strings() == Seq::<(StrHash, Seq<char>)>::empty(),
    {
        let r = RocksDbTransaction { ops: Vec::new(), new_strings: Vec::new() };
        assert(r.strings() =~= Seq::<(StrHash, Seq<char>)>::empty());
        r
    }

    /// Adds a quad during the transaction.
    pub fn insert(&mut self, quad: &Quad) -> (r: Result<(), StorageError>)
        requires
            old(self).wf(),
        ensures
            r is Ok,
            final(self).wf(),
            final(self).ops() == old(self).ops().push(EncodedOp::Insert(encode_quad_spec(*quad))),
            final(self).strings() == old(self).strings() + quad_strings_spec(*quad),
    {
        let encoder = TermEncoder::new();
        let encoded = encoder.encode_quad(quad);
        insert_quad_strings(quad, &encoded, &mut self.new_strings);
        proof {
            lemma_encode_term_wf(quad.subject);
            lemma_encode_term_wf(quad.object);
            lemma_encode_graph_name_wf(quad.graph_name);
        }
        let ghost old_ops = self.ops@;
        self.ops.push(EncodedOp::Insert(encoded));
        assert forall|i: int| 0 <= i < self.ops@.len() implies match #[trigger] self.ops@[i] {
            EncodedOp::Insert(q) => storable(q),
            EncodedOp::Remove(q) => storable(q),
        } by {
            if i < old_ops.len() {
                assert(self.ops@[i] == old_ops[i]);
            }
        }
        Ok(())
    }

    /// Removes a quad during the transaction.
    pub fn remove(&mut self, quad: &Quad) -> (r: Result<(), StorageError>)
        requires
            old(self).wf(),
        ensures
            r is Ok,
            final(self).wf(),
            final(self).ops() == old(self).ops().push(EncodedOp::Remove(encode_quad_spec(*quad))),
            final(self).strings() == old(self).strings(),
    {
        let encoder = TermEncoder::new();
        let encoded = encoder.encode_quad(quad);
        proof {
            lemma_encode_term_wf(quad.subject);
            lemma_encode_term_wf(quad.object);
            lemma_encode_graph_name_wf(quad.graph_name);
        }
        let ghost old_ops = self.ops@;
        self.ops.push(EncodedOp::Remove(encoded));
        assert forall|i: int| 0 <= i < self.ops@.len() implies match #[trigger] self.ops@[i] {
            EncodedOp::Insert(q) => storable(q),
            EncodedOp::Remove(q) => storable(q),
        } by {
            if i < old_ops.len() {
                assert(self.ops@[i] == old_ops[i]);
            }
        }
        Ok(())
    }

    /// Adds the quads of a document during the transaction, one after the
    /// other, each blank node label of the document standing for one fresh
    /// blank node.
    pub fn load_dataset(&mut self, quads: &Vec<Quad>) -> (r: Result<(), StorageError>)
        requires
            old(self).wf(),
        ensures
            r is Ok,
            final(self).wf(),
            exists|rs: Seq<Quad>| #[trigger] loaded_quads(quads@, rs) && {
                &&& final(self).ops() == old(self).ops() + rs.map_values(
                    |q: Quad| EncodedOp::Insert(encode_quad_spec(q)),
                )
                &&& final(self).strings() == old(self).strings() + crate::store::quads_strings(rs)
            },
    {
        let relabeled = relabel_quads(quads);
        self.add_quads(&relabeled)
    }

    /// Adds quads during the transaction, one after the other.
    fn add_quads(&mut self, quads: &Vec<Quad>) -> (r: Result<(), StorageError>)
        requires
            old(self).wf(),
        ensures
            r is Ok,
            final(self).wf(),
            final(self).ops() == old(self).ops() + quads@.map_values(
                |q: Quad| EncodedOp::Insert(encode_quad_spec(q)),
            ),
            final(self).strings() == old(self).strings() + crate::store::quads_strings(quads@),
    {
        let ghost old_self = *self;
        let mut i: usize = 0;
        while i < quads.len()
            invariant
                self.wf(),
                i <= quads@.len(),
                self.ops() == old_self.ops() + quads@.take(i as int).map_values(
                    |q: Quad| EncodedOp::Insert(encode_quad_spec(q)),
                ),
                self.strings() == old_self.strings() + crate::store::quads_strings(quads@.take(i as int)),
            decreases quads@.len() - i,
        {
            let _ = self.insert(&quads[i]);
            proof {
                let t = quads@.take(i as int);
                let t1 = quads@.take(i + 1);
                assert(t1.drop_last() =~= t);
                assert(t1.map_values(|q: Quad| EncodedOp::Insert(encode_quad_spec(q))) =~= t.map_values(
                    |q: Quad| EncodedOp::Insert(encode_quad_spec(q)),
                ).push(EncodedOp::Insert(encode_quad_spec(quads@[i as int]))));
                assert(self.ops() =~= old_self.ops() + t1.map_values(
                    |q: Quad| EncodedOp::Insert(encode_quad_spec(q)),
                ));
                assert(self.strings() =~= old_self.strings() + crate::store::quads_strings(t1));
            }
            i = i + 1;
        }
        assert(quads@.take(quads@.len() as int) =~= quads@);
        Ok(())
    }

    /// Adds the triples of a document, in the given graph, during the
    /// transaction, each blank node label of the document standing for one
    /// fresh blank node.
    pub fn load_graph(&mut self, triples: &Vec<Triple>, to_graph_name: &GraphName) -> (r: Result<
        (),
        StorageError,
    >)
        requires
            old(self).wf(),
        ensures
            r is Ok,
            final(self).wf(),
            exists|rs: Seq<Quad>| #[trigger] loaded_triples(triples@, *to_graph_name, rs) && {
                &&& final(self).ops() == old(self).ops() + rs.map_values(
                    |q: Quad| EncodedOp::Insert(encode_quad_spec(q)),
                )
                &&& final(self).strings() == old(self).strings() + crate::store::quads_strings(rs)
            },
    {
        let relabeled = relabel_triples(triples, to_graph_name);
        self.add_quads(&relabeled)
    }

    /// Applies the changes to the store, in order.
    pub fn commit(self, store: &mut RocksDbStore) -> (r: Result<(), StorageError>)
        requires
            self.wf(),
            old(store).wf(),
        ensures
            r is Ok,
            final(store).wf(),
            final(store).quads() == apply_ops(old(store).quads(), self.ops()),
            final(store).named_graphs_view() == apply_graph_ops(old(store).named_graphs_view(), self.ops()),
            final(store).strings() == old(store).strings().union_prefer_right(strings_map(self.strings())),
    {
        store.insert_strs(&self.new_strings);
        let ghost mid = *store;
        let mut i: usize = 0;
        assert(self.ops@.take(0) =~= Seq::<EncodedOp>::empty());
        while i < self.ops.len()
            invariant
                self.wf(),
                store.wf(),
                i <= self.ops@.len(),
                store.quads() == apply_ops(mid.quads(), self.ops@.take(i as int)),
                store.named_graphs_view() == apply_graph_ops(mid.named_graphs_view(), self.ops@.take(i as int)),
                store.strings() == mid.strings(),
                mid.quads() == old(store).quads(),
                mid.named_graphs_view() == old(store).named_graphs_view(),
            decreases self.ops@.len() - i,
        {
            let ghost t1 = self.ops@.take(i + 1);
            assert(t1.drop_last() =~= self.ops@.take(i as int));
            assert(t1.last() == self.ops@[i as int]);
            let ghost before = *store;
            match &self.ops[i] {
                EncodedOp::Insert(q) => {
                    store.insert_encoded(q);
                },
                EncodedOp::Remove(q) => {
                    store.remove_encoded(q);
                },
            }
            proof {
                store.lemma_strings_of_bytes(before);
            }
            i = i + 1;
        }
        assert(self.ops@.take(self.ops@.len() as int) =~= self.ops@);
        Ok(())
    }
}

impl RocksDbStore {
    /// Starts a transaction on the store: its changes are applied by
    /// `commit`, and dropped with it otherwise.
    pub fn transaction(&self) -> (r: RocksDbTransaction)
        ensures
            r.wf(),
            r.ops() == Seq::<EncodedOp>::empty(),
            r.strings() == Seq::<(StrHash, Seq<char>)>::empty(),
    {
        RocksDbTransaction::new()
    }
}

/// A change of an in-memory transaction.
pub enum TransactionOp {
    Insert(Quad),
    Delete(Quad),
}

/// Allows inserting and deleting quads during a transaction; the changes
/// are kept, in order, until they are applied.
pub struct MemoryTransaction {
    ops: Vec<TransactionOp>,
}

impl MemoryTransaction {
    /// The changes, in order.
    pub closed spec fn ops(self) -> Seq<TransactionOp> {
        self.ops@
    }

    pub fn new() -> (r: Self)
        ensures
            r.ops() == Seq::<TransactionOp>::empty(),
    {
        MemoryTransaction { ops: Vec::new() }
    }

    /// Adds the triples of a document, in the given graph, during the
    /// transaction, each blank node label of the document standing for one
    /// fresh blank node.
    pub fn load_graph(&mut self, triples: &Vec<Triple>, to_graph_name: &GraphName) -> (r: Result<
        (),
        StorageError,
    >)
        ensures
            r is Ok,
            exists|rs: Seq<Quad>| #[trigger] loaded_triples(triples@, *to_graph_name, rs)
                && final(self).ops() == old(self).ops() + rs.map_values(|q: Quad| TransactionOp::Insert(q)),
    {
        let relabeled = relabel_triples(triples, to_graph_name);
        self.push_inserts(relabeled);
        Ok(())
    }

    /// Adds the quads of a document during the transaction, each blank
    /// node label of the document standing for one fresh blank node.
    pub fn load_dataset(&mut self, quads: Vec<Quad>) -> (r: Result<(), StorageError>)
        ensures
            r is Ok,
            exists|rs: Seq<Quad>| #[trigger] loaded_quads(quads@, rs)
                && final(self).ops() == old(self).ops() + rs.map_values(|q: Quad| TransactionOp::Insert(q)),
    {
        let relabeled = relabel_quads(&quads);
        self.push_inserts(relabeled);
        Ok(())
    }

    /// Adds the insertion of each quad, in order.
    fn push_inserts(&mut self, quads: Vec<Quad>)
        ensures
            final(self).ops() == old(self).ops() + quads@.map_values(|q: Quad| TransactionOp::Insert(q)),
    {
        let ghost start = self.ops@;
        let mut i: usize = 0;
        while i < quads.len()
            invariant
                i <= quads@.len(),
                self.ops@ == start + quads@.take(i as int).map_values(|q: Quad| TransactionOp::Insert(q)),
            decreases quads@.len() - i,
        {
            self.ops.push(TransactionOp::Insert(quads[i].duplicate()));
            assert(quads@.take(i + 1).map_values(|q: Quad| TransactionOp::Insert(q)) =~= quads@.take(
                i as int,
            ).map_values(|q: Quad| TransactionOp::Insert(q)).push(TransactionOp::Insert(quads@[i as int])));
            assert(self.ops@ =~= start + quads@.take(i + 1).map_values(|q: Quad| TransactionOp::Insert(q)));
            i = i + 1;
        }
        assert(quads@.take(quads@.len() as int) =~= quads@);
    }

    /// Adds a quad during the transaction.
    pub fn insert(&mut self, quad: Quad)
        ensures
            final(self).ops() == old(self).ops().push(TransactionOp::Insert(quad)),
    {
        self.ops.push(TransactionOp::Insert(quad))
    }

    /// Removes a quad during the transaction.
    pub fn remove(&mut self, quad: Quad)
        ensures
            final(self).ops() == old(self).ops().push(TransactionOp::Delete(quad)),
    {
        self.ops.push(TransactionOp::Delete(quad))
    }
}

/// The quads after in-memory changes, applied in order.
pub open spec fn apply_memory_ops(quads: Set<EncodedQuad>, ops: Seq<TransactionOp>) -> Set<EncodedQuad>
    decreases ops.len(),
{
    if ops.len() == 0 {
        quads
    } else {
        match ops.last() {
            TransactionOp::Insert(q) => apply_memory_ops(quads, ops.drop_last()).insert(encode_quad_spec(q)),
            TransactionOp::Delete(q) => apply_memory_ops(quads, ops.drop_last()).remove(encode_quad_spec(q)),
        }
    }
}

/// The long strings that in-memory changes add, in order.
pub open spec fn memory_ops_strings(ops: Seq<TransactionOp>) -> Seq<(StrHash, Seq<char>)>
    decreases ops.len(),
{
    if ops.len() == 0 {
        Seq::empty()
    } else {
        memory_ops_strings(ops.drop_last()) + match ops.last() {
            TransactionOp::Insert(q) => quad_strings_spec(q),
            TransactionOp::Delete(_) => Seq::empty(),
        }
    }
}

impl MemoryStore {
    /// A transaction on the store: changes gathered, then committed.
    pub fn transaction(&self) -> (r: MemoryTransaction)
        ensures
            r.ops() == Seq::<TransactionOp>::empty(),
    {
        MemoryTransaction::new()
    }
}

impl MemoryTransaction {
    /// Applies the changes to the store, in order.
    pub fn commit(self, store: &mut MemoryStore)
        requires
            old(store).wf(),
        ensures
            final(store).wf(),
            final(store).quads() == apply_memory_ops(old(store).quads(), self.ops()),
            final(store).strings() == old(store).strings().union_prefer_right(
                strings_map(memory_ops_strings(self.ops())),
            ),
    {
        let ghost q0 = store.quads();
        let ghost s0 = store.strings();
        let mut i: usize = 0;
        assert(self.ops@.take(0) =~= Seq::<TransactionOp>::empty());
        assert(s0.union_prefer_right(strings_map(Seq::empty())) =~= s0);
        while i < self.ops.len()
            invariant
                store.wf(),
                i <= self.ops@.len(),
                store.quads() == apply_memory_ops(q0, self.ops@.take(i as int)),
                store.strings() == s0.union_prefer_right(strings_map(memory_ops_strings(self.ops@.take(i as int)))),
            decreases self.ops@.len() - i,
        {
            let ghost t = self.ops@.take(i as int);
            let ghost t1 = self.ops@.take(i + 1);
            assert(t1.drop_last() =~= t);
            match &self.ops[i] {
                TransactionOp::Insert(quad) => {
                    store.insert(quad);
                    proof {
                        crate::store::lemma_strings_map_concat(memory_ops_strings(t), quad_strings_spec(*quad));
                        assert(store.strings() =~= s0.union_prefer_right(strings_map(memory_ops_strings(t1))));
                    }
                },
                TransactionOp::Delete(quad) => {
                    store.remove(quad);
                    assert(memory_ops_strings(t1) =~= memory_ops_strings(t));
                },
            }
            i = i + 1;
        }
        assert(self.ops@.take(self.ops@.len() as int) =~= self.ops@);
    }
}

/// The error of a transaction: the closure aborted it, or the storage failed.
#[derive(Debug)]
pub enum SledTransactionError<T> {
    Abort(T),
    Storage(StorageError),
}

/// An error of a transaction operation that does not abort the transaction.
#[derive(Debug)]
pub enum SledUnabortableTransactionError {
    Conflict,
    Storage(StorageError),
}

/// An error of a transaction operation that may abort the transaction.
#[derive(Debug)]
pub enum SledConflictableTransactionError<T> {
    Abort(T),
    Conflict,
    Storage(StorageError),
}

impl<T> From<SledUnabortableTransactionError> for SledConflictableTransactionError<T> {
    fn from(e: SledUnabortableTransactionError) -> (r: Self) {
        match e {
            SledUnabortableTransactionError::Storage(e) => Self::Storage(e),
            SledUnabortableTransactionError::Conflict => Self::Conflict,
        }
    }
}

impl<T> vstd::std_specs::convert::FromSpecImpl<SledUnabortableTransactionError> for SledConflictableTransactionError<T> {
    open spec fn obeys_from_spec() -> bool {
        true
    }

    open spec fn from_spec(e: SledUnabortableTransactionError) -> Self {
        match e {
            SledUnabortableTransactionError::Storage(e) => Self::Storage(e),
            SledUnabortableTransactionError::Conflict => Self::Conflict,
        }
    }
}

/// A transaction with a store: its changes are kept, in order, and applied
/// to the store when it commits; dropping it leaves the store as it was.
pub struct SledTransaction {
    changes: RocksDbTransaction,
}

impl SledTransaction {
    /// The changes kept so far, with the strings they bring.
    pub closed spec fn changes(self) -> RocksDbTransaction {
        self.changes
    }

    /// A transaction without changes.
    pub fn new() -> (r: Self)
        ensures
            r.changes().wf(),
            r.changes().ops() == Seq::<EncodedOp>::empty(),
            r.changes().strings() == Seq::<(StrHash, Seq<char>)>::empty(),
    {
        SledTransaction { changes: RocksDbTransaction::new() }
    }

    /// Adds the triples of a document, in the given graph, during the
    /// transaction, each blank node label of the document standing for one
    /// fresh blank node.
    pub fn load_graph(&mut self, triples: &Vec<Triple>, to_graph_name: &GraphName) -> (r: Result<
        (),
        SledUnabortableTransactionError,
    >)
        requires
            old(self).changes().wf(),
        ensures
            r is Ok,
            final(self).changes().wf(),
            exists|rs: Seq<Quad>| #[trigger] loaded_triples(triples@, *to_graph_name, rs) && {
                &&& final(self).changes().ops() == old(self).changes().ops() + rs.map_values(
                    |q: Quad| EncodedOp::Insert(encode_quad_spec(q)),
                )
                &&& final(self).changes().strings() == old(self).changes().strings()
                    + crate::store::quads_strings(rs)
            },
    {
        match self.changes.load_graph(triples, to_graph_name) {
            Ok(()) => Ok(()),
            Err(e) => Err(SledUnabortableTransactionError::Storage(e)),
        }
    }

    /// Adds the quads of a document during the transaction, each blank node
    /// label of the document standing for one fresh blank node.
    pub fn load_dataset(&mut self, quads: &Vec<Quad>) -> (r: Result<(), SledUnabortableTransactionError>)
        requires
            old(self).changes().wf(),
        ensures
            r is Ok,
            final(self).changes().wf(),
            exists|rs: Seq<Quad>| #[trigger] loaded_quads(quads@, rs) && {
                &&& final(self).changes().ops() == old(self).changes().ops() + rs.map_values(
                    |q: Quad| EncodedOp::Insert(encode_quad_spec(q)),
                )
                &&& final(self).changes().strings() == old(self).changes().strings()
                    + crate::store::quads_strings(rs)
            },
    {
        match self.changes.load_dataset(quads) {
            Ok(()) => Ok(()),
            Err(e) => Err(SledUnabortableTransactionError::Storage(e)),
        }
    }

    /// Adds a quad during the transaction.
    pub fn insert(&mut self, quad: &Quad) -> (r: Result<(), SledUnabortableTransactionError>)
        requires
            old(self).changes().wf(),
        ensures
            r is Ok,
            final(self).changes().wf(),
            final(self).changes().ops() == old(self).changes().ops().push(EncodedOp::Insert(encode_quad_spec(*quad))),
            final(self).changes().strings() == old(self).changes().strings() + quad_strings_spec(*quad),
    {
        match self.changes.insert(quad) {
            Ok(()) => Ok(()),
            Err(e) => Err(SledUnabortableTransactionError::Storage(e)),
        }
    }

    /// Removes a quad during the transaction.
    pub fn remove(&mut self, quad: &Quad) -> (r: Result<(), SledUnabortableTransactionError>)
        requires
            old(self).changes().wf(),
        ensures
            r is Ok,
            final(self).changes().wf(),
            final(self).changes().ops() == old(self).changes().ops().push(EncodedOp::Remove(encode_quad_spec(*quad))),
            final(self).changes().strings() == old(self).changes().strings(),
    {
        match self.changes.remove(quad) {
            Ok(()) => Ok(()),
            Err(e) => Err(SledUnabortableTransactionError::Storage(e)),
        }
    }

    /// Applies the changes to the store, in order, with the strings they
    /// bring; the graphs of inserted quads become named graphs of the store.
    pub fn commit(self, store: &mut RocksDbStore) -> (r: Result<(), SledUnabortableTransactionError>)
        requires
            self.changes().wf(),
            old(store).wf(),
        ensures
            r is Ok,
            final(store).wf(),
            final(store).quads() == apply_ops(old(store).quads(), self.changes().ops()),
            final(store).named_graphs_view() == apply_graph_ops(old(store).named_graphs_view(), self.changes().ops()),
            final(store).strings() == old(store).strings().union_prefer_right(strings_map(self.changes().strings())),
    {
        match self.changes.commit(store) {
            Ok(()) => Ok(()),
            Err(e) => Err(SledUnabortableTransactionError::Storage(e)),
        }
    }
}

} // verus!
