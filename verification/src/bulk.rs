//! Bulk loading: the quads are cut into batches, each batch is encoded on
//! its own (its distinct quads, the names of its named graphs and its
//! strings), and progress is reported as batches complete. Running the
//! batches side by side is left to the caller.

use vstd::prelude::*;
use crate::error::StorageError;
use crate::model::Quad;
use crate::numeric_encoder::{EncodedQuad, EncodedTerm};
use crate::storage_generator::Storage;
use crate::vg::GraphView;
use crate::store::{first_wins, graphs_of, quads_of, quads_strings, RocksDbStore};
use crate::str_hash::StrHash;
use crate::term_encoder::{
    graph_name_strings_spec, insert_graph_name, collect_term_strings, lemma_encode_graph_name_wf,
    lemma_encode_term_wf, encode_graph_name_spec, encode_lang_string_spec, encode_literal_term_spec, encode_quad_spec,
    encode_string_spec, encode_term_spec, hashed, literal_strings_spec, native_literal_encoding,
    pair_views, quad_strings_spec, term_strings_spec, TermEncoder, XSD_BOOLEAN,
};
use crate::model::{RDF_LANG_STRING, XSD_STRING};

verus! {

// ---------------------------------------------------------------------------
// Hashes held by encoded terms

/// The hashes that an encoded term holds in place of its long strings.
pub open spec fn term_keys(e: EncodedTerm) -> Set<StrHash>
    decreases e,
{
    match e {
        EncodedTerm::NamedNode { iri_id } => set![iri_id],
        EncodedTerm::BigBlankNode { id_id } => set![id_id],
        EncodedTerm::BigStringLiteral { value_id } => set![value_id],
        EncodedTerm::SmallBigLangStringLiteral { language_id, .. } => set![language_id],
        EncodedTerm::BigSmallLangStringLiteral { value_id, .. } => set![value_id],
        EncodedTerm::BigBigLangStringLiteral { value_id, language_id } => set![value_id, language_id],
        EncodedTerm::SmallTypedLiteral { datatype_id, .. } => set![datatype_id],
        EncodedTerm::BigTypedLiteral { value_id, datatype_id } => set![value_id, datatype_id],
        EncodedTerm::Triple(t) => term_keys(t.subject) + term_keys(t.predicate) + term_keys(
            t.object,
        ),
        _ => Set::empty(),
    }
}

/// The hashes that an encoded quad holds in place of its long strings.
pub open spec fn quad_keys(q: EncodedQuad) -> Set<StrHash> {
    term_keys(q.subject) + term_keys(q.predicate) + term_keys(q.object) + term_keys(q.graph_name)
}

/// The hashes of a sequence of pairs of hash and string.
pub open spec fn pair_keys(s: Seq<(StrHash, Seq<char>)>) -> Set<StrHash> {
    Set::new(|k: StrHash| exists|i: int| 0 <= i < s.len() && (#[trigger] s[i]).0 == k)
}

proof fn lemma_pair_keys_concat(a: Seq<(StrHash, Seq<char>)>, b: Seq<(StrHash, Seq<char>)>)
    ensures
        pair_keys(a + b) == pair_keys(a) + pair_keys(b),
{
    assert forall|k: StrHash| pair_keys(a + b).contains(k) <==> (pair_keys(a) + pair_keys(b)).contains(k) by {
        if pair_keys(a + b).contains(k) {
            let i = choose|i: int| 0 <= i < (a + b).len() && (#[trigger] (a + b)[i]).0 == k;
            if i < a.len() {
                assert(a[i] == (a + b)[i]);
            } else {
                assert(b[i - a.len()] == (a + b)[i]);
            }
        }
        if pair_keys(a).contains(k) {
            let i = choose|i: int| 0 <= i < a.len() && (#[trigger] a[i]).0 == k;
            assert((a + b)[i] == a[i]);
        }
        if pair_keys(b).contains(k) {
            let i = choose|i: int| 0 <= i < b.len() && (#[trigger] b[i]).0 == k;
            assert((a + b)[a.len() + i] == b[i]);
        }
    }
    assert(pair_keys(a + b) =~= pair_keys(a) + pair_keys(b));
}

proof fn lemma_pair_keys_hashed(s: Seq<char>)
    ensures
        pair_keys(hashed(s)) == set![crate::term_encoder::hash_of(s)],
{
    let h = hashed(s);
    assert(h[0].0 == crate::term_encoder::hash_of(s));
    assert(pair_keys(h) =~= set![crate::term_encoder::hash_of(s)]);
}

proof fn lemma_pair_keys_empty()
    ensures
        pair_keys(Seq::<(StrHash, Seq<char>)>::empty()) == Set::<StrHash>::empty(),
{
    assert(pair_keys(Seq::<(StrHash, Seq<char>)>::empty()) =~= Set::<StrHash>::empty());
}

/// The hashes of the strings of a literal are those that its encoding holds.
proof fn lemma_literal_keys(l: crate::model::Literal)
    ensures
        pair_keys(literal_strings_spec(l)) == term_keys(encode_literal_term_spec(l)),
{
    let value = l.value_spec();
    let datatype = l.datatype_spec();
    let language = match l.language_spec() {
        Some(x) => x,
        None => Seq::empty(),
    };
    lemma_pair_keys_empty();
    lemma_pair_keys_hashed(value);
    lemma_pair_keys_hashed(datatype);
    lemma_pair_keys_hashed(language);
    lemma_pair_keys_concat(hashed(value), hashed(language));
    lemma_pair_keys_concat(hashed(value), hashed(datatype));
    let e = encode_literal_term_spec(l);
    let n = native_literal_encoding(value, datatype, l.language_spec());
    if datatype == RDF_LANG_STRING@ && l.language_spec() is Some {
        assert(e == encode_lang_string_spec(value, language));
    } else if n is None {
        assert(e is SmallTypedLiteral || e is BigTypedLiteral);
    } else if datatype == XSD_STRING@ && datatype != RDF_LANG_STRING@ && datatype != XSD_BOOLEAN@ {
        assert(e == encode_string_spec(value));
    } else {
        lemma_native_not_stringy(value, datatype, l.language_spec());
    }
    assert(pair_keys(literal_strings_spec(l)) =~= term_keys(e));
}

/// A native encoding, other than that of a string or a language-tagged
/// string, holds no hash.
proof fn lemma_native_not_stringy(value: Seq<char>, datatype: Seq<char>, language: Option<Seq<char>>)
    requires
        native_literal_encoding(value, datatype, language) is Some,
        !(datatype == RDF_LANG_STRING@ && language is Some),
        !(datatype == XSD_STRING@ && datatype != RDF_LANG_STRING@ && datatype != XSD_BOOLEAN@),
    ensures
        term_keys(native_literal_encoding(value, datatype, language).unwrap()) == Set::<StrHash>::empty(),
{
    let e = native_literal_encoding(value, datatype, language).unwrap();
    assert(!(e is NamedNode) && !(e is BigBlankNode) && !(e is BigStringLiteral) && !(
    e is SmallBigLangStringLiteral) && !(e is BigSmallLangStringLiteral) && !(
    e is BigBigLangStringLiteral) && !(e is SmallTypedLiteral) && !(e is BigTypedLiteral) && !(
    e is Triple));
}

/// The hashes of the strings that a term hands to the string store are
/// those that its encoding holds.
pub proof fn lemma_term_keys(t: crate::model::Term)
    ensures
        pair_keys(term_strings_spec(t)) == term_keys(encode_term_spec(t)),
    decreases t,
{
    lemma_pair_keys_empty();
    match t {
        crate::model::Term::NamedNode(n) => {
            lemma_pair_keys_hashed(n.iri@);
        },
        crate::model::Term::BlankNode(b) => {
            lemma_pair_keys_hashed(b.id@);
        },
        crate::model::Term::Literal(l) => {
            lemma_literal_keys(l);
        },
        crate::model::Term::Triple(tr) => {
            lemma_term_keys(tr.subject);
            lemma_term_keys(tr.object);
            lemma_pair_keys_hashed(tr.predicate.iri@);
            lemma_pair_keys_concat(term_strings_spec(tr.subject), hashed(tr.predicate.iri@));
            lemma_pair_keys_concat(
                term_strings_spec(tr.subject) + hashed(tr.predicate.iri@),
                term_strings_spec(tr.object),
            );
            let et = crate::numeric_encoder::EncodedTriple {
                subject: encode_term_spec(tr.subject),
                predicate: crate::term_encoder::encode_named_node_spec(tr.predicate.iri@),
                object: encode_term_spec(tr.object),
            };
            assert(encode_term_spec(t) == EncodedTerm::Triple(Box::new(et)));
            assert(term_keys(et.predicate) == set![crate::term_encoder::hash_of(tr.predicate.iri@)]);
            assert(term_keys(encode_term_spec(t)) == term_keys(et.subject) + term_keys(et.predicate)
                + term_keys(et.object));
            assert(pair_keys(term_strings_spec(t)) =~= term_keys(encode_term_spec(t)));
        },
    }
}

/// The hashes of the strings of a graph name are those that its encoding
/// holds.
proof fn lemma_graph_keys(g: crate::model::GraphName)
    ensures
        pair_keys(graph_name_strings_spec(g)) == term_keys(encode_graph_name_spec(g)),
{
    lemma_pair_keys_empty();
    match g {
        crate::model::GraphName::NamedNode(n) => lemma_pair_keys_hashed(n.iri@),
        crate::model::GraphName::BlankNode(b) => lemma_pair_keys_hashed(b.id@),
        crate::model::GraphName::DefaultGraph => {},
    }
}

/// The hashes of the strings of a quad are those that its encoding holds.
pub proof fn lemma_quad_keys(q: Quad)
    ensures
        pair_keys(quad_strings_spec(q)) == quad_keys(encode_quad_spec(q)),
{
    lemma_pair_keys_empty();
    lemma_term_keys(q.subject);
    lemma_term_keys(q.object);
    lemma_pair_keys_hashed(q.predicate.iri@);
    let g = graph_name_strings_spec(q.graph_name);
    lemma_graph_keys(q.graph_name);
    let a = term_strings_spec(q.subject);
    let b = hashed(q.predicate.iri@);
    let c = term_strings_spec(q.object);
    lemma_pair_keys_concat(a, b);
    lemma_pair_keys_concat(a + b, c);
    lemma_pair_keys_concat(a + b + c, g);
    assert(pair_keys(quad_strings_spec(q)) =~= quad_keys(encode_quad_spec(q)));
}

// ---------------------------------------------------------------------------
// Writing strings where the first string of a hash stays

/// Writing pairs whose hashes the map has changes nothing.
proof fn lemma_first_wins_known(m: Map<StrHash, Seq<char>>, pairs: Seq<(StrHash, Seq<char>)>)
    requires
        pair_keys(pairs).subset_of(m.dom()),
    ensures
        first_wins(m, pairs) == m,
    decreases pairs.len(),
{
    if pairs.len() > 0 {
        let init = pairs.drop_last();
        assert forall|k: StrHash| pair_keys(init).contains(k) implies m.dom().contains(k) by {
            let i = choose|i: int| 0 <= i < init.len() && (#[trigger] init[i]).0 == k;
            assert(pairs[i] == init[i]);
        }
        lemma_first_wins_known(m, init);
        assert(pair_keys(pairs).contains(pairs[pairs.len() - 1].0));
    }
}

/// The hashes of the map after writing pairs are those of the map and those
/// of the pairs.
proof fn lemma_first_wins_dom(m: Map<StrHash, Seq<char>>, pairs: Seq<(StrHash, Seq<char>)>)
    ensures
        first_wins(m, pairs).dom() == m.dom() + pair_keys(pairs),
    decreases pairs.len(),
{
    if pairs.len() == 0 {
        lemma_pair_keys_empty();
        assert(m.dom() + Set::<StrHash>::empty() =~= m.dom());
    } else {
        let init = pairs.drop_last();
        lemma_first_wins_dom(m, init);
        assert(init + seq![pairs.last()] =~= pairs);
        lemma_pair_keys_concat(init, seq![pairs.last()]);
        assert(pair_keys(seq![pairs.last()]) =~= set![pairs.last().0]) by {
            assert(seq![pairs.last()][0] == pairs.last());
        }
        assert(first_wins(m, pairs).dom() =~= m.dom() + pair_keys(pairs));
    }
}

/// Writing two runs of pairs one after the other is writing the runs joined.
proof fn lemma_first_wins_concat(
    m: Map<StrHash, Seq<char>>,
    a: Seq<(StrHash, Seq<char>)>,
    b: Seq<(StrHash, Seq<char>)>,
)
    ensures
        first_wins(first_wins(m, a), b) == first_wins(m, a + b),
    decreases b.len(),
{
    if b.len() == 0 {
        assert(a + b =~= a);
    } else {
        lemma_first_wins_concat(m, a, b.drop_last());
        assert((a + b).drop_last() =~= a + b.drop_last());
        assert((a + b).last() == b.last());
    }
}

// ---------------------------------------------------------------------------
// One batch

proof fn lemma_quads_push(t: Seq<Quad>, q: Quad)
    ensures
        quads_of(t.push(q)) == quads_of(t).insert(encode_quad_spec(q)),
        graphs_of(t.push(q)) == (if q.graph_name is DefaultGraph {
            graphs_of(t)
        } else {
            graphs_of(t).insert(encode_graph_name_spec(q.graph_name))
        }),
        quads_strings(t.push(q)) == quads_strings(t) + quad_strings_spec(q),
{
    let t1 = t.push(q);
    assert(t1.drop_last() =~= t);
    assert forall|e: EncodedQuad| #[trigger] quads_of(t1).contains(e) <==> quads_of(t).insert(encode_quad_spec(q)).contains(e) by {
        if quads_of(t).contains(e) {
            let j = choose|j: int| 0 <= j < t.len() && e == encode_quad_spec(#[trigger] t[j]);
            assert(t1[j] == t[j]);
        }
        if quads_of(t1).contains(e) {
            let j = choose|j: int| 0 <= j < t1.len() && e == encode_quad_spec(#[trigger] t1[j]);
            if j < t.len() {
                assert(t1[j] == t[j]);
            }
        }
        if e == encode_quad_spec(q) {
            assert(t1[t.len() as int] == q);
        }
    }
    assert(quads_of(t1) =~= quads_of(t).insert(encode_quad_spec(q)));
    let gs = if q.graph_name is DefaultGraph {
        graphs_of(t)
    } else {
        graphs_of(t).insert(encode_graph_name_spec(q.graph_name))
    };
    assert forall|g: EncodedTerm| #[trigger] graphs_of(t1).contains(g) <==> gs.contains(g) by {
        if graphs_of(t).contains(g) {
            let j = choose|j: int| 0 <= j < t.len() && !(t[j].graph_name is DefaultGraph) && g == encode_graph_name_spec((#[trigger] t[j]).graph_name);
            assert(t1[j] == t[j]);
        }
        if graphs_of(t1).contains(g) {
            let j = choose|j: int| 0 <= j < t1.len() && !(t1[j].graph_name is DefaultGraph) && g == encode_graph_name_spec((#[trigger] t1[j]).graph_name);
            if j < t.len() {
                assert(t1[j] == t[j]);
            }
        }
        if !(q.graph_name is DefaultGraph) && g == encode_graph_name_spec(q.graph_name) {
            assert(t1[t.len() as int] == q);
        }
    }
    assert(graphs_of(t1) =~= gs);
}

/// One batch of a bulk load: its distinct quads, the names of its named
/// graphs, and its strings by their hash, where the first string given for
/// a hash stays.
pub struct FileBulkLoader {
    buffer: RocksDbStore,
    count: usize,
}

impl FileBulkLoader {
    pub closed spec fn quads(&self) -> Set<EncodedQuad> {
        self.buffer.quads()
    }

    pub closed spec fn graphs(&self) -> Set<EncodedTerm> {
        self.buffer.named_graphs_view()
    }

    pub closed spec fn strings(&self) -> Map<StrHash, Seq<char>> {
        self.buffer.strings()
    }

    /// The quads are counted, and the strings of every quad and graph name
    /// are kept.
    pub closed spec fn wf(&self) -> bool {
        &&& self.buffer.wf()
        &&& self.buffer.quads().finite()
        &&& self.count == self.buffer.quads().len()
        &&& forall|e: EncodedQuad| #[trigger] self.buffer.quads().contains(e) ==> quad_keys(e).subset_of(
            self.buffer.strings().dom(),
        )
        &&& forall|g: EncodedTerm| #[trigger] self.buffer.named_graphs_view().contains(g) ==> term_keys(
            g,
        ).subset_of(self.buffer.strings().dom())
        &&& forall|e: EncodedQuad| #[trigger] self.buffer.quads().contains(e) && !(e.graph_name is DefaultGraph)
            ==> self.buffer.named_graphs_view().contains(e.graph_name)
    }

    /// An empty batch.
    pub fn new() -> (r: Self)
        ensures
            r.wf(),
            r.quads() == Set::<EncodedQuad>::empty(),
            r.graphs() == Set::<EncodedTerm>::empty(),
            r.strings() == Map::<StrHash, Seq<char>>::empty(),
    {
        let r = FileBulkLoader { buffer: RocksDbStore::new(), count: 0 };
        assert(r.buffer.quads().len() == 0);
        r
    }

    /// The number of distinct quads of the batch.
    pub fn len(&self) -> (r: usize)
        requires
            self.wf(),
        ensures
            r == self.quads().len(),
    {
        self.count
    }

    /// Adds a quad, with the strings of its terms where it is new, and with
    /// those of its graph name where that graph is new too.
    fn encode_one(&mut self, quad: &Quad)
        requires
            old(self).wf(),
            old(self).quads().len() < usize::MAX,
        ensures
            final(self).wf(),
            final(self).quads() == old(self).quads().insert(encode_quad_spec(*quad)),
            final(self).graphs() == (if quad.graph_name is DefaultGraph {
                old(self).graphs()
            } else {
                old(self).graphs().insert(encode_graph_name_spec(quad.graph_name))
            }),
            final(self).strings() == first_wins(old(self).strings(), quad_strings_spec(*quad)),
    {
        let ghost m = self.strings();
        let encoder = TermEncoder::new();
        let encoded = encoder.encode_quad(quad);
        proof {
            lemma_encode_term_wf(quad.subject);
            lemma_encode_term_wf(quad.object);
            lemma_encode_graph_name_wf(quad.graph_name);
            lemma_quad_keys(*quad);
            lemma_first_wins_dom(m, quad_strings_spec(*quad));
        }
        if self.buffer.contains_encoded(&encoded) {
            proof {
                lemma_first_wins_known(m, quad_strings_spec(*quad));
                assert(self.quads() =~= self.quads().insert(encoded));
                if !(quad.graph_name is DefaultGraph) {
                    assert(self.buffer.named_graphs_view().contains(encoded.graph_name));
                    assert(self.graphs() =~= self.graphs().insert(encoded.graph_name));
                }
            }
            return;
        }
        let graph_new = !encoded.graph_name.is_default_graph()
            && !self.buffer.contains_encoded_named_graph(&encoded.graph_name);
        let ghost before = self.buffer;
        self.buffer.insert_encoded(&encoded);
        proof {
            self.buffer.lemma_strings_of_bytes(before);
        }
        let predicate = crate::model::Term::NamedNode(quad.predicate.duplicate());
        let mut strs: Vec<(StrHash, String)> = Vec::new();
        collect_term_strings(&quad.subject, &encoded.subject, &mut strs);
        collect_term_strings(&predicate, &encoded.predicate, &mut strs);
        collect_term_strings(&quad.object, &encoded.object, &mut strs);
        self.buffer.insert_strs_if_absent(&strs);
        let ghost spo = pair_views(strs@);
        let ghost g = graph_name_strings_spec(quad.graph_name);
        let ghost mid = self.buffer.strings();
        assert(spo + g =~= quad_strings_spec(*quad));
        if graph_new {
            let mut gstrs: Vec<(StrHash, String)> = Vec::new();
            insert_graph_name(&quad.graph_name, &encoded.graph_name, &mut gstrs);
            assert(pair_views(gstrs@) =~= g);
            self.buffer.insert_strs_if_absent(&gstrs);
        } else {
            proof {
                lemma_first_wins_dom(m, spo);
                if !(quad.graph_name is DefaultGraph) {
                    assert(before.named_graphs_view().contains(encoded.graph_name));
                    lemma_graph_keys(quad.graph_name);
                } else {
                    lemma_pair_keys_empty();
                }
                lemma_first_wins_known(mid, g);
            }
        }
        proof {
            lemma_first_wins_concat(m, spo, g);
            assert(!before.quads().contains(encoded));
            assert(self.buffer.quads() == before.quads().insert(encoded));
            assert(self.buffer.quads().len() == before.quads().len() + 1);
        }
        self.count = self.count + 1;
        proof {
            let e = encoded;
            assert forall|x: EncodedQuad| #[trigger] self.buffer.quads().contains(x) implies quad_keys(
                x,
            ).subset_of(self.buffer.strings().dom()) by {
                if x != e {
                    assert(before.quads().contains(x));
                }
            }
            assert forall|x: EncodedTerm| #[trigger] self.buffer.named_graphs_view().contains(x) implies term_keys(
                x,
            ).subset_of(self.buffer.strings().dom()) by {
                if x != e.graph_name {
                    assert(before.named_graphs_view().contains(x));
                }
            }
            assert forall|x: EncodedQuad| #[trigger] self.buffer.quads().contains(x) && !(x.graph_name is DefaultGraph)
                implies self.buffer.named_graphs_view().contains(x.graph_name) by {
                if x != e {
                    assert(before.quads().contains(x));
                }
            }
        }
    }

    /// Adds the quads of a batch, one after the other: each quad that is
    /// new, the strings of its terms where the hash of a string is new, and
    /// the name of its graph.
    pub fn encode(&mut self, quads: &Vec<Quad>) -> (r: Result<(), StorageError>)
        requires
            old(self).wf(),
            old(self).quads().len() + quads@.len() <= usize::MAX,
        ensures
            r is Ok,
            final(self).wf(),
            final(self).quads() == old(self).quads() + quads_of(quads@),
            final(self).graphs() == old(self).graphs() + graphs_of(quads@),
            final(self).strings() == first_wins(old(self).strings(), quads_strings(quads@)),
    {
        let ghost old_self = *self;
        let mut i: usize = 0;
        assert(quads@.take(0) =~= Seq::<Quad>::empty());
        assert(old_self.quads() + quads_of(quads@.take(0)) =~= old_self.quads());
        assert(old_self.graphs() + graphs_of(quads@.take(0)) =~= old_self.graphs());
        while i < quads.len()
            invariant
                self.wf(),
                old_self.wf(),
                i <= quads@.len(),
                old_self.quads().len() + quads@.len() <= usize::MAX,
                self.quads() == old_self.quads() + quads_of(quads@.take(i as int)),
                self.graphs() == old_self.graphs() + graphs_of(quads@.take(i as int)),
                self.strings() == first_wins(old_self.strings(), quads_strings(quads@.take(i as int))),
                self.quads().len() <= old_self.quads().len() + i,
            decreases quads@.len() - i,
        {
            let ghost t = quads@.take(i as int);
            let ghost before = *self;
            self.encode_one(&quads[i]);
            proof {
                let q = quads@[i as int];
                assert(quads@.take(i + 1) =~= t.push(q));
                lemma_quads_push(t, q);
                lemma_first_wins_concat(old_self.strings(), quads_strings(t), quad_strings_spec(q));
                assert(self.quads() =~= old_self.quads() + quads_of(quads@.take(i + 1)));
                assert(self.graphs() =~= old_self.graphs() + graphs_of(quads@.take(i + 1)));
            }
            i = i + 1;
        }
        assert(quads@.take(quads@.len() as int) =~= quads@);
        Ok(())
    }

    /// Adds the quads of a batch, and gives the number of distinct quads of
    /// the batch.
    pub fn load(&mut self, quads: &Vec<Quad>) -> (r: Result<u64, StorageError>)
        requires
            old(self).wf(),
            old(self).quads().len() + quads@.len() <= usize::MAX,
        ensures
            final(self).wf(),
            final(self).quads() == old(self).quads() + quads_of(quads@),
            final(self).graphs() == old(self).graphs() + graphs_of(quads@),
            final(self).strings() == first_wins(old(self).strings(), quads_strings(quads@)),
            r == Ok::<u64, StorageError>(final(self).quads().len() as u64),
    {
        match self.encode(quads) {
            Ok(()) => {},
            Err(e) => return Err(e),
        }
        let size = self.len();
        Ok(size as u64)
    }
}

// ---------------------------------------------------------------------------
// The loader

/// The size of a batch where no memory bound is given, and the number of
/// loaded quads between two progress reports.
pub const DEFAULT_BULK_LOAD_BATCH_SIZE: usize = 1_000_000;

/// The number of loading threads where none is given.
pub const DEFAULT_BULK_LOAD_THREADS: usize = 2;

/// The smallest batch size that a memory bound may give.
pub const MIN_BULK_LOAD_BATCH_SIZE: usize = 10_000;

/// Loads quads into a storage in batches, several at a time.
pub struct StorageBulkLoader {
    storage: Storage,
    num_threads: Option<usize>,
    max_memory_size: Option<usize>,
}

/// How a bulk load runs: the number of batches loaded at a time and the
/// number of quads of a batch.
pub open spec fn batch_plan_spec(num_threads: Option<usize>, max_memory_size: Option<usize>) -> Result<
    (usize, usize),
    Seq<char>,
> {
    let threads = match num_threads {
        Some(n) => n,
        None => DEFAULT_BULK_LOAD_THREADS,
    };
    if threads < 2 {
        Err("The bulk loader needs at least 2 threads"@)
    } else {
        let batch = match max_memory_size {
            Some(m) => (m * 1000 / (threads as int)) as usize,
            None => DEFAULT_BULK_LOAD_BATCH_SIZE,
        };
        if batch < MIN_BULK_LOAD_BATCH_SIZE {
            Err("The bulk loader memory bound is too low. It needs at least 100MB"@)
        } else {
            Ok((threads, batch))
        }
    }
}

impl StorageBulkLoader {
    pub closed spec fn num_threads(&self) -> Option<usize> {
        self.num_threads
    }

    pub closed spec fn max_memory_size(&self) -> Option<usize> {
        self.max_memory_size
    }

    pub closed spec fn graph_view(&self) -> GraphView {
        self.storage.graph_view()
    }

    /// A loader into the storage, with the default number of threads and
    /// batch size.
    pub fn new(storage: Storage) -> (r: Self)
        ensures
            r.num_threads() is None,
            r.max_memory_size() is None,
            r.graph_view() == storage.graph_view(),
    {
        StorageBulkLoader { storage, num_threads: None, max_memory_size: None }
    }

    /// Sets the number of batches loaded at a time.
    pub fn set_num_threads(self, num_threads: usize) -> (r: Self)
        ensures
            r.num_threads() == Some(num_threads),
            r.max_memory_size() == self.max_memory_size(),
            r.graph_view() == self.graph_view(),
    {
        StorageBulkLoader { num_threads: Some(num_threads), ..self }
    }

    /// Bounds the memory of the load, in megabytes.
    pub fn set_max_memory_size_in_megabytes(self, max_memory_size: usize) -> (r: Self)
        ensures
            r.max_memory_size() == Some(max_memory_size),
            r.num_threads() == self.num_threads(),
            r.graph_view() == self.graph_view(),
    {
        StorageBulkLoader { max_memory_size: Some(max_memory_size), ..self }
    }

    /// The memory bound given, in megabytes.
    pub fn memory_bound(&self) -> (r: Option<usize>)
        ensures
            r == self.max_memory_size(),
    {
        self.max_memory_size
    }

    /// The number of batches loaded at a time and the number of quads of a
    /// batch; refused where fewer than two threads are asked for, or where
    /// the memory bound gives batches of fewer than ten thousand quads.
    pub fn batch_plan(&self) -> (r: Result<(usize, usize), StorageError>)
        requires
            self.max_memory_size() matches Some(m) ==> m * 1000 <= usize::MAX,
        ensures
            match batch_plan_spec(self.num_threads(), self.max_memory_size()) {
                Ok(p) => r == Ok::<(usize, usize), StorageError>(p),
                Err(msg) => r matches Err(StorageError::Other(m)) && m@ == msg,
            },
    {
        let num_threads = match self.num_threads {
            Some(n) => n,
            None => DEFAULT_BULK_LOAD_THREADS,
        };
        if num_threads < 2 {
            let msg = "The bulk loader needs at least 2 threads";
            proof {
                reveal_strlit("The bulk loader needs at least 2 threads");
            }
            return Err(StorageError::Other(msg.to_owned()));
        }
        let batch_size = match self.max_memory_size {
            Some(m) => m * 1000 / num_threads,
            None => DEFAULT_BULK_LOAD_BATCH_SIZE,
        };
        if batch_size < MIN_BULK_LOAD_BATCH_SIZE {
            let msg = "The bulk loader memory bound is too low. It needs at least 100MB";
            proof {
                reveal_strlit("The bulk loader memory bound is too low. It needs at least 100MB");
            }
            return Err(StorageError::Other(msg.to_owned()));
        }
        Ok((num_threads, batch_size))
    }

    /// Loads one batch; gives the number of its distinct quads.
    pub fn load_batch(&self, quads: &Vec<Quad>) -> (r: Result<u64, StorageError>)
        ensures
            r == Ok::<u64, StorageError>(quads_of(quads@).len() as u64),
    {
        let mut batch = FileBulkLoader::new();
        assert(batch.quads().len() == 0);
        let n = quads.len();
        assert(n == quads@.len());
        let r = batch.load(quads);
        assert(Set::<EncodedQuad>::empty() + quads_of(quads@) =~= quads_of(quads@));
        r
    }
}

/// Whether the number of loaded quads has passed a multiple of the report
/// step since the last report, so that the progress hooks are called.
pub fn progress_reached(done: u64, displayed: u64) -> (r: bool)
    ensures
        r == (done / (DEFAULT_BULK_LOAD_BATCH_SIZE as u64) > displayed / (
        DEFAULT_BULK_LOAD_BATCH_SIZE as u64)),
{
    let step = DEFAULT_BULK_LOAD_BATCH_SIZE as u64;
    done / step > displayed / step
}

} // verus!
