//! The quad store: a dataset kept in column families of the key-value
//! backend. Each quad is written in three orders when it is in the default
//! graph and in six orders otherwise, so that every pattern has an index; the
//! names of the named graphs and the long strings have column families of
//! their own.

use vstd::prelude::*;
use vstd::utf8::{decode_utf8, encode_utf8, valid_utf8};
use crate::backend::{is_prefix, lex_lt, Tree};
use vstd::relations::injective_on;
use vstd::set_lib::{lemma_map_size, lemma_set_disjoint_lens};
use crate::binary_encoder::{
    decode_quad_spec, lemma_quad_roundtrip, lemma_term_roundtrip, quad_terms, terms_bytes, TermsRead, quad_bytes, quad_wf, read_term_spec, term_bytes,
    write_osp_quad, write_pos_quad, write_spo_quad, write_gosp_quad, write_gpos_quad,
    write_gspo_quad, write_ospg_quad, write_posg_quad, write_spog_quad, write_term, QuadEncoding,
    TermRead, LATEST_STORAGE_VERSION,
};
use crate::numeric_encoder::{spec_is_blank_node, term_wf, EncodedQuad, EncodedTerm, EncodedTriple};
use crate::small_string::str_from_utf8;
use crate::binary_encoder::decode_term;
use crate::term_decoder::{decodable, decodes_to, quad_decodes_to, StrLookup, TermDecoder};
use crate::str_hash::StrHash;
use crate::model::{BlankNode, GraphName, Literal, NamedNode, NamedOrBlankNode, Quad, Term, Triple, RDF_LANG_STRING, XSD_STRING};
use crate::small_string::SmallString;
use crate::utils::{chars_are, chars_of};
use crate::error::{CorruptionError, StorageError};
use crate::endian::{u64_from_be, u64_from_be_bytes, u64_to_be, u64_to_be_bytes};
use crate::relabel::{loaded_quads, loaded_triples, relabel_quads, relabel_triples};
use crate::term_encoder::{
    encode_graph_name_spec, encode_named_or_blank_node_spec, encode_quad_spec, insert_graph_name,
    insert_named_or_blank_node, insert_quad_strings, lemma_encode_graph_name_wf,
    lemma_encode_named_or_blank_node_wf, lemma_encode_term_wf, named_or_blank_node_strings_spec,
    pair_views, quad_strings_spec, term_strings_spec, encode_term_spec, TermEncoder, hash_of,
    fits_small, small_of, small_or_hash, literal_strings_spec, encode_literal_term_spec,
    encode_literal_spec, encode_named_node_spec, encode_blank_node_spec, hashed,
    graph_name_strings_spec,
};

verus! {

/// Whether the tree holds the key of the quad in the given order.
pub open spec fn has_quad(t: Tree, e: QuadEncoding, q: EncodedQuad) -> bool {
    t.view().contains_key(quad_bytes(e, q))
}

/// Whether an encoded quad can be stored: its terms are well formed and the
/// default graph marker stands nowhere but as graph name.
pub open spec fn storable(q: EncodedQuad) -> bool {
    if q.graph_name is DefaultGraph {
        quad_wf(QuadEncoding::Dspo, q)
    } else {
        quad_wf(QuadEncoding::Gspo, q)
    }
}

/// Whether an encoded term can name a graph.
pub open spec fn graph_name_wf(g: EncodedTerm) -> bool {
    term_wf(g) && !(g is DefaultGraph)
}

/// The serializations of two quads in the same order are equal only for
/// equal quads.
pub proof fn lemma_quad_bytes_injective(e: QuadEncoding, q1: EncodedQuad, q2: EncodedQuad)
    requires
        quad_wf(e, q1),
        quad_wf(e, q2),
        quad_bytes(e, q1) == quad_bytes(e, q2),
    ensures
        q1 == q2,
{
    lemma_quad_roundtrip(e, q1, Seq::empty());
    lemma_quad_roundtrip(e, q2, Seq::empty());
    assert(quad_bytes(e, q1) + Seq::<u8>::empty() == quad_bytes(e, q1));
    assert(quad_bytes(e, q2) + Seq::<u8>::empty() == quad_bytes(e, q2));
}

/// The serializations of two terms are equal only for equal terms.
pub proof fn lemma_term_bytes_injective(t1: EncodedTerm, t2: EncodedTerm)
    requires
        graph_name_wf(t1),
        graph_name_wf(t2),
        term_bytes(t1) == term_bytes(t2),
    ensures
        t1 == t2,
{
    lemma_term_roundtrip(t1, Seq::empty());
    lemma_term_roundtrip(t2, Seq::empty());
    assert(term_bytes(t1) + Seq::<u8>::empty() == term_bytes(t1));
    assert(term_bytes(t2) + Seq::<u8>::empty() == term_bytes(t2));
}

/// The serialization of a quad.
pub fn quad_key(e: QuadEncoding, q: &EncodedQuad) -> (r: Vec<u8>)
    ensures
        r@ == quad_bytes(e, *q),
{
    let mut buffer: Vec<u8> = Vec::new();
    match e {
        QuadEncoding::Spog => write_spog_quad(&mut buffer, q),
        QuadEncoding::Posg => write_posg_quad(&mut buffer, q),
        QuadEncoding::Ospg => write_ospg_quad(&mut buffer, q),
        QuadEncoding::Gspo => write_gspo_quad(&mut buffer, q),
        QuadEncoding::Gpos => write_gpos_quad(&mut buffer, q),
        QuadEncoding::Gosp => write_gosp_quad(&mut buffer, q),
        QuadEncoding::Dspo => write_spo_quad(&mut buffer, q),
        QuadEncoding::Dpos => write_pos_quad(&mut buffer, q),
        QuadEncoding::Dosp => write_osp_quad(&mut buffer, q),
    }
    assert(Seq::<u8>::empty() + quad_bytes(e, *q) == quad_bytes(e, *q));
    buffer
}

/// The serialization of a term.
pub fn term_key(t: &EncodedTerm) -> (r: Vec<u8>)
    ensures
        r@ == term_bytes(*t),
{
    let mut buffer: Vec<u8> = Vec::new();
    write_term(&mut buffer, t);
    assert(Seq::<u8>::empty() + term_bytes(*t) == term_bytes(*t));
    buffer
}

/// The store that the sled engine keeps: the same column families, written
/// and read the same way, so it is this store over the same backend.
pub type SledStore = RocksDbStore;

/// A dataset stored in column families of the key-value backend.
pub struct RocksDbStore {
    default_cf: Tree,
    id2str: Tree,
    spog: Tree,
    posg: Tree,
    ospg: Tree,
    gspo: Tree,
    gpos: Tree,
    gosp: Tree,
    dspo: Tree,
    dpos: Tree,
    dosp: Tree,
    graphs: Tree,
}

impl RocksDbStore {
    /// The quads of the store.
    pub closed spec fn quads(self) -> Set<EncodedQuad> {
        Set::new(
            |q: EncodedQuad|
                storable(q) && if q.graph_name is DefaultGraph {
                    has_quad(self.dspo, QuadEncoding::Dspo, q)
                } else {
                    has_quad(self.gspo, QuadEncoding::Gspo, q)
                },
        )
    }

    /// The named graphs that the store knows, whether or not they hold quads.
    pub closed spec fn named_graphs_view(self) -> Set<EncodedTerm> {
        Set::new(|g: EncodedTerm| graph_name_wf(g) && self.graphs.view().contains_key(term_bytes(g)))
    }

    /// The stored bytes of the long strings, by the bytes of their hash.
    pub closed spec fn string_bytes(self) -> Map<Seq<u8>, Seq<u8>> {
        self.id2str.view()
    }

    /// The version of the storage format that the store records.
    pub closed spec fn version(self) -> Option<Seq<u8>> {
        if self.default_cf.view().contains_key(version_key()) {
            Some(self.default_cf.view()[version_key()])
        } else {
            None
        }
    }

    /// Whether the column families agree with one another.
    pub closed spec fn wf(self) -> bool {
        &&& self.default_cf.wf() && self.id2str.wf() && self.graphs.wf()
        &&& self.spog.wf() && self.posg.wf() && self.ospg.wf()
        &&& self.gspo.wf() && self.gpos.wf() && self.gosp.wf()
        &&& self.dspo.wf() && self.dpos.wf() && self.dosp.wf()
        &&& forall|q: EncodedQuad|
            quad_wf(QuadEncoding::Dspo, q) ==> (#[trigger] has_quad(self.dspo, QuadEncoding::Dspo, q)
                == has_quad(self.dpos, QuadEncoding::Dpos, q) && has_quad(self.dspo, QuadEncoding::Dspo, q)
                == has_quad(self.dosp, QuadEncoding::Dosp, q))
        &&& forall|q: EncodedQuad|
            quad_wf(QuadEncoding::Gspo, q) ==> {
                let g = #[trigger] has_quad(self.gspo, QuadEncoding::Gspo, q);
                &&& g == has_quad(self.gpos, QuadEncoding::Gpos, q)
                &&& g == has_quad(self.gosp, QuadEncoding::Gosp, q)
                &&& g == has_quad(self.spog, QuadEncoding::Spog, q)
                &&& g == has_quad(self.posg, QuadEncoding::Posg, q)
                &&& g == has_quad(self.ospg, QuadEncoding::Ospg, q)
                &&& g ==> self.graphs.view().contains_key(term_bytes(q.graph_name))
            }
        &&& forall|k: Seq<u8>|
            #[trigger] self.dspo.view().contains_key(k) ==> exists|q: EncodedQuad|
                quad_wf(QuadEncoding::Dspo, q) && k == #[trigger] quad_bytes(QuadEncoding::Dspo, q)
        &&& forall|k: Seq<u8>|
            #[trigger] self.gspo.view().contains_key(k) ==> exists|q: EncodedQuad|
                quad_wf(QuadEncoding::Gspo, q) && k == #[trigger] quad_bytes(QuadEncoding::Gspo, q)
        &&& keys_are_quads(self.dpos, QuadEncoding::Dpos) && keys_are_quads(self.dosp, QuadEncoding::Dosp)
        &&& keys_are_quads(self.spog, QuadEncoding::Spog) && keys_are_quads(self.posg, QuadEncoding::Posg)
        &&& keys_are_quads(self.ospg, QuadEncoding::Ospg) && keys_are_quads(self.gpos, QuadEncoding::Gpos)
        &&& keys_are_quads(self.gosp, QuadEncoding::Gosp)
        &&& forall|k: Seq<u8>|
            #[trigger] self.graphs.view().contains_key(k) ==> exists|g: EncodedTerm|
                graph_name_wf(g) && k == #[trigger] term_bytes(g)
        &&& forall|k: Seq<u8>|
            #[trigger] self.id2str.view().contains_key(k) ==> valid_utf8(self.id2str.view()[k])
    }
}

impl RocksDbStore {
    /// Adds an encoded quad, and its graph name to the named graphs.
    pub fn insert_encoded(&mut self, quad: &EncodedQuad)
        requires
            old(self).wf(),
            storable(*quad),
        ensures
            final(self).wf(),
            final(self).quads() == old(self).quads().insert(*quad),
            final(self).named_graphs_view() == (if quad.graph_name is DefaultGraph {
                old(self).named_graphs_view()
            } else {
                old(self).named_graphs_view().insert(quad.graph_name)
            }),
            final(self).string_bytes() == old(self).string_bytes(),
            final(self).version() == old(self).version(),
    {
        let ghost old_self = *self;
        let empty: [u8; 0] = [];
        if quad.graph_name.is_default_graph() {
            self.dspo.insert(quad_key(QuadEncoding::Dspo, quad).as_slice(), &empty);
            self.dpos.insert(quad_key(QuadEncoding::Dpos, quad).as_slice(), &empty);
            self.dosp.insert(quad_key(QuadEncoding::Dosp, quad).as_slice(), &empty);
            proof {
                assert(empty@ == Seq::<u8>::empty());
                assert forall|x: EncodedQuad| quad_wf(QuadEncoding::Dspo, x) implies
                    #[trigger] has_quad(self.dspo, QuadEncoding::Dspo, x) == (has_quad(old_self.dspo, QuadEncoding::Dspo, x) || x == *quad)
                    && has_quad(self.dpos, QuadEncoding::Dpos, x) == (has_quad(old_self.dpos, QuadEncoding::Dpos, x) || x == *quad)
                    && has_quad(self.dosp, QuadEncoding::Dosp, x) == (has_quad(old_self.dosp, QuadEncoding::Dosp, x) || x == *quad) by {
                    lemma_insert_key(old_self.dspo, self.dspo, QuadEncoding::Dspo, *quad, x);
                    lemma_insert_key(old_self.dpos, self.dpos, QuadEncoding::Dpos, *quad, x);
                    lemma_insert_key(old_self.dosp, self.dosp, QuadEncoding::Dosp, *quad, x);
                }
                lemma_keys_insert(old_self.dpos, self.dpos, QuadEncoding::Dpos, *quad);
                lemma_keys_insert(old_self.dosp, self.dosp, QuadEncoding::Dosp, *quad);
                assert forall|k: Seq<u8>| #[trigger] self.dspo.view().contains_key(k) implies exists|x: EncodedQuad|
                    quad_wf(QuadEncoding::Dspo, x) && k == #[trigger] quad_bytes(QuadEncoding::Dspo, x) by {
                    if k == quad_bytes(QuadEncoding::Dspo, *quad) {
                    } else {
                        assert(old_self.dspo.view().contains_key(k));
                    }
                }
                assert(self.quads() =~= old_self.quads().insert(*quad));
                assert(self.named_graphs_view() =~= old_self.named_graphs_view());
            }
        } else {
            self.spog.insert(quad_key(QuadEncoding::Spog, quad).as_slice(), &empty);
            self.posg.insert(quad_key(QuadEncoding::Posg, quad).as_slice(), &empty);
            self.ospg.insert(quad_key(QuadEncoding::Ospg, quad).as_slice(), &empty);
            self.gspo.insert(quad_key(QuadEncoding::Gspo, quad).as_slice(), &empty);
            self.gpos.insert(quad_key(QuadEncoding::Gpos, quad).as_slice(), &empty);
            self.gosp.insert(quad_key(QuadEncoding::Gosp, quad).as_slice(), &empty);
            self.graphs.insert(term_key(&quad.graph_name).as_slice(), &empty);
            proof {
                assert(empty@ == Seq::<u8>::empty());
                assert forall|x: EncodedQuad| quad_wf(QuadEncoding::Gspo, x) implies {
                    &&& #[trigger] has_quad(self.gspo, QuadEncoding::Gspo, x) == (has_quad(old_self.gspo, QuadEncoding::Gspo, x) || x == *quad)
                    &&& has_quad(self.gpos, QuadEncoding::Gpos, x) == (has_quad(old_self.gpos, QuadEncoding::Gpos, x) || x == *quad)
                    &&& has_quad(self.gosp, QuadEncoding::Gosp, x) == (has_quad(old_self.gosp, QuadEncoding::Gosp, x) || x == *quad)
                    &&& has_quad(self.spog, QuadEncoding::Spog, x) == (has_quad(old_self.spog, QuadEncoding::Spog, x) || x == *quad)
                    &&& has_quad(self.posg, QuadEncoding::Posg, x) == (has_quad(old_self.posg, QuadEncoding::Posg, x) || x == *quad)
                    &&& has_quad(self.ospg, QuadEncoding::Ospg, x) == (has_quad(old_self.ospg, QuadEncoding::Ospg, x) || x == *quad)
                } by {
                    lemma_insert_key(old_self.gspo, self.gspo, QuadEncoding::Gspo, *quad, x);
                    lemma_insert_key(old_self.gpos, self.gpos, QuadEncoding::Gpos, *quad, x);
                    lemma_insert_key(old_self.gosp, self.gosp, QuadEncoding::Gosp, *quad, x);
                    lemma_insert_key(old_self.spog, self.spog, QuadEncoding::Spog, *quad, x);
                    lemma_insert_key(old_self.posg, self.posg, QuadEncoding::Posg, *quad, x);
                    lemma_insert_key(old_self.ospg, self.ospg, QuadEncoding::Ospg, *quad, x);
                }
                lemma_keys_insert(old_self.spog, self.spog, QuadEncoding::Spog, *quad);
                lemma_keys_insert(old_self.posg, self.posg, QuadEncoding::Posg, *quad);
                lemma_keys_insert(old_self.ospg, self.ospg, QuadEncoding::Ospg, *quad);
                lemma_keys_insert(old_self.gpos, self.gpos, QuadEncoding::Gpos, *quad);
                lemma_keys_insert(old_self.gosp, self.gosp, QuadEncoding::Gosp, *quad);
                assert forall|k: Seq<u8>| #[trigger] self.gspo.view().contains_key(k) implies exists|x: EncodedQuad|
                    quad_wf(QuadEncoding::Gspo, x) && k == #[trigger] quad_bytes(QuadEncoding::Gspo, x) by {
                    if k == quad_bytes(QuadEncoding::Gspo, *quad) {
                    } else {
                        assert(old_self.gspo.view().contains_key(k));
                    }
                }
                assert forall|k: Seq<u8>| #[trigger] self.graphs.view().contains_key(k) implies exists|g: EncodedTerm|
                    graph_name_wf(g) && k == #[trigger] term_bytes(g) by {
                    if k == term_bytes(quad.graph_name) {
                    } else {
                        assert(old_self.graphs.view().contains_key(k));
                    }
                }
                assert forall|g: EncodedTerm| #[trigger] self.named_graphs_view().contains(g) <==> old_self.named_graphs_view().insert(quad.graph_name).contains(g) by {
                    if graph_name_wf(g) && term_bytes(g) == term_bytes(quad.graph_name) {
                        lemma_term_bytes_injective(g, quad.graph_name);
                    }
                }
                assert(self.quads() =~= old_self.quads().insert(*quad));
                assert(self.named_graphs_view() =~= old_self.named_graphs_view().insert(quad.graph_name));
            }
        }
    }
}

impl RocksDbStore {
    /// Removes an encoded quad; the named graphs stay as they are.
    pub fn remove_encoded(&mut self, quad: &EncodedQuad)
        requires
            old(self).wf(),
            storable(*quad),
        ensures
            final(self).wf(),
            final(self).quads() == old(self).quads().remove(*quad),
            final(self).named_graphs_view() == old(self).named_graphs_view(),
            final(self).string_bytes() == old(self).string_bytes(),
            final(self).version() == old(self).version(),
    {
        let ghost old_self = *self;
        if quad.graph_name.is_default_graph() {
            self.dspo.remove(quad_key(QuadEncoding::Dspo, quad).as_slice());
            self.dpos.remove(quad_key(QuadEncoding::Dpos, quad).as_slice());
            self.dosp.remove(quad_key(QuadEncoding::Dosp, quad).as_slice());
            proof {
                assert forall|x: EncodedQuad| quad_wf(QuadEncoding::Dspo, x) implies
                    #[trigger] has_quad(self.dspo, QuadEncoding::Dspo, x) == (has_quad(old_self.dspo, QuadEncoding::Dspo, x) && x != *quad)
                    && has_quad(self.dpos, QuadEncoding::Dpos, x) == (has_quad(old_self.dpos, QuadEncoding::Dpos, x) && x != *quad)
                    && has_quad(self.dosp, QuadEncoding::Dosp, x) == (has_quad(old_self.dosp, QuadEncoding::Dosp, x) && x != *quad) by {
                    lemma_remove_key(old_self.dspo, self.dspo, QuadEncoding::Dspo, *quad, x);
                    lemma_remove_key(old_self.dpos, self.dpos, QuadEncoding::Dpos, *quad, x);
                    lemma_remove_key(old_self.dosp, self.dosp, QuadEncoding::Dosp, *quad, x);
                }
                lemma_keys_remove(old_self.dpos, self.dpos, QuadEncoding::Dpos, quad_bytes(QuadEncoding::Dpos, *quad));
                lemma_keys_remove(old_self.dosp, self.dosp, QuadEncoding::Dosp, quad_bytes(QuadEncoding::Dosp, *quad));
                assert forall|k: Seq<u8>| #[trigger] self.dspo.view().contains_key(k) implies exists|x: EncodedQuad|
                    quad_wf(QuadEncoding::Dspo, x) && k == #[trigger] quad_bytes(QuadEncoding::Dspo, x) by {
                    assert(old_self.dspo.view().contains_key(k));
                }
                assert(self.quads() =~= old_self.quads().remove(*quad));
                assert(self.named_graphs_view() =~= old_self.named_graphs_view());
            }
        } else {
            self.spog.remove(quad_key(QuadEncoding::Spog, quad).as_slice());
            self.posg.remove(quad_key(QuadEncoding::Posg, quad).as_slice());
            self.ospg.remove(quad_key(QuadEncoding::Ospg, quad).as_slice());
            self.gspo.remove(quad_key(QuadEncoding::Gspo, quad).as_slice());
            self.gpos.remove(quad_key(QuadEncoding::Gpos, quad).as_slice());
            self.gosp.remove(quad_key(QuadEncoding::Gosp, quad).as_slice());
            proof {
                assert forall|x: EncodedQuad| quad_wf(QuadEncoding::Gspo, x) implies {
                    &&& #[trigger] has_quad(self.gspo, QuadEncoding::Gspo, x) == (has_quad(old_self.gspo, QuadEncoding::Gspo, x) && x != *quad)
                    &&& has_quad(self.gpos, QuadEncoding::Gpos, x) == (has_quad(old_self.gpos, QuadEncoding::Gpos, x) && x != *quad)
                    &&& has_quad(self.gosp, QuadEncoding::Gosp, x) == (has_quad(old_self.gosp, QuadEncoding::Gosp, x) && x != *quad)
                    &&& has_quad(self.spog, QuadEncoding::Spog, x) == (has_quad(old_self.spog, QuadEncoding::Spog, x) && x != *quad)
                    &&& has_quad(self.posg, QuadEncoding::Posg, x) == (has_quad(old_self.posg, QuadEncoding::Posg, x) && x != *quad)
                    &&& has_quad(self.ospg, QuadEncoding::Ospg, x) == (has_quad(old_self.ospg, QuadEncoding::Ospg, x) && x != *quad)
                } by {
                    lemma_remove_key(old_self.gspo, self.gspo, QuadEncoding::Gspo, *quad, x);
                    lemma_remove_key(old_self.gpos, self.gpos, QuadEncoding::Gpos, *quad, x);
                    lemma_remove_key(old_self.gosp, self.gosp, QuadEncoding::Gosp, *quad, x);
                    lemma_remove_key(old_self.spog, self.spog, QuadEncoding::Spog, *quad, x);
                    lemma_remove_key(old_self.posg, self.posg, QuadEncoding::Posg, *quad, x);
                    lemma_remove_key(old_self.ospg, self.ospg, QuadEncoding::Ospg, *quad, x);
                }
                lemma_keys_remove(old_self.spog, self.spog, QuadEncoding::Spog, quad_bytes(QuadEncoding::Spog, *quad));
                lemma_keys_remove(old_self.posg, self.posg, QuadEncoding::Posg, quad_bytes(QuadEncoding::Posg, *quad));
                lemma_keys_remove(old_self.ospg, self.ospg, QuadEncoding::Ospg, quad_bytes(QuadEncoding::Ospg, *quad));
                lemma_keys_remove(old_self.gpos, self.gpos, QuadEncoding::Gpos, quad_bytes(QuadEncoding::Gpos, *quad));
                lemma_keys_remove(old_self.gosp, self.gosp, QuadEncoding::Gosp, quad_bytes(QuadEncoding::Gosp, *quad));
                assert forall|k: Seq<u8>| #[trigger] self.gspo.view().contains_key(k) implies exists|x: EncodedQuad|
                    quad_wf(QuadEncoding::Gspo, x) && k == #[trigger] quad_bytes(QuadEncoding::Gspo, x) by {
                    assert(old_self.gspo.view().contains_key(k));
                }
                assert(self.quads() =~= old_self.quads().remove(*quad));
            }
        }
    }

    /// Whether the store holds the encoded quad.
    pub fn contains_encoded(&self, quad: &EncodedQuad) -> (r: bool)
        requires
            self.wf(),
            storable(*quad),
        ensures
            r == self.quads().contains(*quad),
    {
        if quad.graph_name.is_default_graph() {
            self.dspo.contains_key(quad_key(QuadEncoding::Dspo, quad).as_slice())
        } else {
            self.gspo.contains_key(quad_key(QuadEncoding::Gspo, quad).as_slice())
        }
    }

    /// Adds a named graph.
    pub fn insert_encoded_named_graph(&mut self, graph_name: &EncodedTerm)
        requires
            old(self).wf(),
            graph_name_wf(*graph_name),
        ensures
            final(self).wf(),
            final(self).quads() == old(self).quads(),
            final(self).named_graphs_view() == old(self).named_graphs_view().insert(*graph_name),
            final(self).string_bytes() == old(self).string_bytes(),
            final(self).version() == old(self).version(),
    {
        let ghost old_self = *self;
        let empty: [u8; 0] = [];
        self.graphs.insert(term_key(graph_name).as_slice(), &empty);
        proof {
            assert forall|k: Seq<u8>| #[trigger] self.graphs.view().contains_key(k) implies exists|g: EncodedTerm|
                graph_name_wf(g) && k == #[trigger] term_bytes(g) by {
                if k != term_bytes(*graph_name) {
                    assert(old_self.graphs.view().contains_key(k));
                }
            }
            assert forall|g: EncodedTerm| #[trigger] self.named_graphs_view().contains(g) <==> old_self.named_graphs_view().insert(*graph_name).contains(g) by {
                if graph_name_wf(g) && term_bytes(g) == term_bytes(*graph_name) {
                    lemma_term_bytes_injective(g, *graph_name);
                }
            }
            assert(self.quads() =~= old_self.quads());
            assert(self.named_graphs_view() =~= old_self.named_graphs_view().insert(*graph_name));
        }
    }

    /// Whether the store knows the named graph.
    pub fn contains_encoded_named_graph(&self, graph_name: &EncodedTerm) -> (r: bool)
        requires
            self.wf(),
            graph_name_wf(*graph_name),
        ensures
            r == self.named_graphs_view().contains(*graph_name),
    {
        self.graphs.contains_key(term_key(graph_name).as_slice())
    }

    /// Removes every quad, named graph and string.
    pub fn clear_encoded(&mut self)
        requires
            old(self).wf(),
        ensures
            final(self).wf(),
            final(self).quads() == Set::<EncodedQuad>::empty(),
            final(self).named_graphs_view() == Set::<EncodedTerm>::empty(),
            final(self).string_bytes() == Map::<Seq<u8>, Seq<u8>>::empty(),
            final(self).version() == old(self).version(),
    {
        self.spog.clear();
        self.posg.clear();
        self.ospg.clear();
        self.gspo.clear();
        self.gpos.clear();
        self.gosp.clear();
        self.dspo.clear();
        self.dpos.clear();
        self.dosp.clear();
        self.graphs.clear();
        self.id2str.clear();
        assert(self.quads() =~= Set::<EncodedQuad>::empty());
        assert(self.named_graphs_view() =~= Set::<EncodedTerm>::empty());
    }
}

/// The quad whose key in the given order is `k`.
pub open spec fn quad_of_key(e: QuadEncoding, k: Seq<u8>) -> EncodedQuad {
    choose|q: EncodedQuad| quad_wf(e, q) && quad_bytes(e, q) == k
}

/// A tree whose keys are all keys of quads holds as many quads as keys.
proof fn lemma_tree_quads_len(t: Tree, e: QuadEncoding, qs: Set<EncodedQuad>)
    requires
        t.view().dom().finite(),
        qs == Set::new(|q: EncodedQuad| quad_wf(e, q) && has_quad(t, e, q)),
        forall|k: Seq<u8>|
            #[trigger] t.view().contains_key(k) ==> exists|q: EncodedQuad|
                quad_wf(e, q) && k == #[trigger] quad_bytes(e, q),
    ensures
        qs.finite(),
        qs.len() == t.view().dom().len(),
{
    let dom = t.view().dom();
    let f = |k: Seq<u8>| quad_of_key(e, k);
    assert(injective_on(f, dom)) by {
        assert forall|k1: Seq<u8>, k2: Seq<u8>| dom.contains(k1) && dom.contains(k2) && #[trigger] f(k1) == #[trigger] f(k2) implies k1 == k2 by {
            assert(t.view().contains_key(k1));
            assert(t.view().contains_key(k2));
        }
    }
    assert forall|q: EncodedQuad| #[trigger] dom.map(f).contains(q) <==> qs.contains(q) by {
        if qs.contains(q) {
            let k = quad_bytes(e, q);
            assert(dom.contains(k));
            let q2 = f(k);
            lemma_quad_bytes_injective(e, q, q2);
        }
        if dom.map(f).contains(q) {
            let k = choose|k: Seq<u8>| dom.contains(k) && f(k) == q;
            assert(t.view().contains_key(k));
        }
    }
    assert(dom.map(f) =~= qs);
    lemma_map_size(dom, qs, f);
}

/// A key that starts with the serialization of a graph name belongs to a
/// quad of that graph.
proof fn lemma_graph_prefix(g: EncodedTerm, q: EncodedQuad)
    requires
        graph_name_wf(g),
        quad_wf(QuadEncoding::Gspo, q),
    ensures
        is_prefix(term_bytes(g), quad_bytes(QuadEncoding::Gspo, q)) <==> q.graph_name == g,
{
    let k = quad_bytes(QuadEncoding::Gspo, q);
    let ts = quad_terms(QuadEncoding::Gspo, q);
    let rest = terms_bytes(ts.drop_first());
    assert(k == term_bytes(q.graph_name) + rest);
    if q.graph_name == g {
        assert(k.take(term_bytes(g).len() as int) == term_bytes(g));
    }
    if is_prefix(term_bytes(g), k) {
        let n = term_bytes(g).len() as int;
        assert(k == term_bytes(g) + k.skip(n));
        lemma_term_roundtrip(g, k.skip(n));
        lemma_term_roundtrip(q.graph_name, rest);
    }
}

impl RocksDbStore {
    /// The number of quads.
    pub fn len(&self) -> (r: usize)
        requires
            self.wf(),
            self.quads().len() <= usize::MAX,
        ensures
            self.quads().finite(),
            r == self.quads().len(),
    {
        let d = self.dspo.len();
        let n = self.gspo.len();
        let ghost qd = Set::new(|q: EncodedQuad| quad_wf(QuadEncoding::Dspo, q) && has_quad(self.dspo, QuadEncoding::Dspo, q));
        let ghost qn = Set::new(|q: EncodedQuad| quad_wf(QuadEncoding::Gspo, q) && has_quad(self.gspo, QuadEncoding::Gspo, q));
        proof {
            lemma_tree_quads_len(self.dspo, QuadEncoding::Dspo, qd);
            lemma_tree_quads_len(self.gspo, QuadEncoding::Gspo, qn);
            assert(self.quads() =~= qd + qn);
            assert(qd.disjoint(qn));
            lemma_set_disjoint_lens(qd, qn);
        }
        d + n
    }

    /// Whether the store holds no quad.
    pub fn is_empty(&self) -> (r: bool)
        requires
            self.wf(),
        ensures
            self.quads().finite(),
            r == (self.quads().len() == 0),
    {
        let d = self.dspo.is_empty();
        let n = self.gspo.is_empty();
        let ghost qd = Set::new(|q: EncodedQuad| quad_wf(QuadEncoding::Dspo, q) && has_quad(self.dspo, QuadEncoding::Dspo, q));
        let ghost qn = Set::new(|q: EncodedQuad| quad_wf(QuadEncoding::Gspo, q) && has_quad(self.gspo, QuadEncoding::Gspo, q));
        proof {
            lemma_tree_quads_len(self.dspo, QuadEncoding::Dspo, qd);
            lemma_tree_quads_len(self.gspo, QuadEncoding::Gspo, qn);
            assert(self.quads() =~= qd + qn);
            assert(qd.disjoint(qn));
            lemma_set_disjoint_lens(qd, qn);
        }
        d && n
    }

    /// The quads of a named graph, in the order of their keys.
    pub fn encoded_quads_for_named_graph(&self, graph_name: &EncodedTerm) -> (r: Vec<EncodedQuad>)
        requires
            self.wf(),
            graph_name_wf(*graph_name),
        ensures
            forall|q: EncodedQuad| #[trigger] r@.contains(q) <==> self.quads().contains(q) && q.graph_name == *graph_name,
    {
        let prefix = term_key(graph_name);
        let keys = self.gspo.keys_with_prefix(prefix.as_slice());
        let mut out: Vec<EncodedQuad> = Vec::new();
        let mut i: usize = 0;
        while i < keys.len()
            invariant
                self.wf(),
                graph_name_wf(*graph_name),
                prefix@ == term_bytes(*graph_name),
                i <= keys@.len(),
                forall|a: int| 0 <= a < keys@.len() ==> self.gspo.view().contains_key(#[trigger] keys@[a]@) && is_prefix(prefix@, keys@[a]@),
                forall|k: Seq<u8>| self.gspo.view().contains_key(k) && is_prefix(prefix@, k) ==> exists|a: int| 0 <= a < keys@.len() && #[trigger] keys@[a]@ == k,
                forall|q: EncodedQuad| #[trigger] out@.contains(q) <==> self.quads().contains(q) && q.graph_name == *graph_name
                    && exists|a: int| 0 <= a < i && #[trigger] keys@[a]@ == quad_bytes(QuadEncoding::Gspo, q),
            decreases keys@.len() - i,
        {
            let ghost k = keys@[i as int]@;
            assert(self.gspo.view().contains_key(k));
            let ghost q = choose|q: EncodedQuad| quad_wf(QuadEncoding::Gspo, q) && k == quad_bytes(QuadEncoding::Gspo, q);
            proof {
                lemma_quad_roundtrip(QuadEncoding::Gspo, q, Seq::empty());
                assert(k + Seq::<u8>::empty() == k);
                lemma_graph_prefix(*graph_name, q);
            }
            let decoded = QuadEncoding::Gspo.decode(keys[i].as_slice());
            match decoded {
                Ok(quad) => {
                    let ghost old_out = out@;
                    out.push(quad);
                    proof {
                        assert(quad == q);
                        assert forall|x: EncodedQuad| #[trigger] out@.contains(x) <==> self.quads().contains(x) && x.graph_name == *graph_name
                            && exists|a: int| 0 <= a < i + 1 && #[trigger] keys@[a]@ == quad_bytes(QuadEncoding::Gspo, x) by {
                            if x == q {
                                assert(out@[out@.len() - 1] == x);
                                assert(keys@[i as int]@ == quad_bytes(QuadEncoding::Gspo, x));
                            } else {
                                if out@.contains(x) {
                                    let j = choose|j: int| 0 <= j < out@.len() && out@[j] == x;
                                    assert(old_out[j] == x);
                                    assert(old_out.contains(x));
                                }
                                if old_out.contains(x) {
                                    let j = choose|j: int| 0 <= j < old_out.len() && old_out[j] == x;
                                    assert(out@[j] == x);
                                }
                                if self.quads().contains(x) && x.graph_name == *graph_name
                                    && exists|a: int| 0 <= a < i + 1 && #[trigger] keys@[a]@ == quad_bytes(QuadEncoding::Gspo, x) {
                                    let a = choose|a: int| 0 <= a < i + 1 && #[trigger] keys@[a]@ == quad_bytes(QuadEncoding::Gspo, x);
                                    if a == i {
                                        lemma_quad_bytes_injective(QuadEncoding::Gspo, x, q);
                                    }
                                }
                            }
                        }
                    }
                },
                Err(_) => {
                    assert(false);
                },
            }
            i = i + 1;
        }
        proof {
            assert forall|q: EncodedQuad| self.quads().contains(q) && q.graph_name == *graph_name implies exists|a: int| 0 <= a < keys@.len() && #[trigger] keys@[a]@ == quad_bytes(QuadEncoding::Gspo, q) by {
                lemma_graph_prefix(*graph_name, q);
                assert(self.gspo.view().contains_key(quad_bytes(QuadEncoding::Gspo, q)));
            }
        }
        out
    }
}

impl RocksDbStore {
    /// Removes the quads of a list, one after the other.
    fn remove_all_encoded(&mut self, quads: &Vec<EncodedQuad>)
        requires
            old(self).wf(),
            forall|a: int| 0 <= a < quads@.len() ==> storable(#[trigger] quads@[a]),
        ensures
            final(self).wf(),
            forall|q: EncodedQuad| #[trigger] final(self).quads().contains(q) <==> old(self).quads().contains(q) && !quads@.contains(q),
            final(self).named_graphs_view() == old(self).named_graphs_view(),
            final(self).string_bytes() == old(self).string_bytes(),
            final(self).version() == old(self).version(),
    {
        let ghost old_self = *self;
        let mut i: usize = 0;
        while i < quads.len()
            invariant
                self.wf(),
                i <= quads@.len(),
                forall|a: int| 0 <= a < quads@.len() ==> storable(#[trigger] quads@[a]),
                forall|q: EncodedQuad| #[trigger] self.quads().contains(q) <==> old_self.quads().contains(q)
                    && !(exists|a: int| 0 <= a < i && quads@[a] == q),
                self.named_graphs_view() == old_self.named_graphs_view(),
                self.string_bytes() == old_self.string_bytes(),
                self.version() == old_self.version(),
            decreases quads@.len() - i,
        {
            self.remove_encoded(&quads[i]);
            proof {
                assert forall|q: EncodedQuad| #[trigger] self.quads().contains(q) <==> old_self.quads().contains(q)
                    && !(exists|a: int| 0 <= a < i + 1 && quads@[a] == q) by {
                    if exists|a: int| 0 <= a < i + 1 && quads@[a] == q {
                        let a = choose|a: int| 0 <= a < i + 1 && quads@[a] == q;
                        if a < i {
                            assert(exists|b: int| 0 <= b < i && quads@[b] == q);
                        }
                    }
                }
            }
            i = i + 1;
        }
        proof {
            assert forall|q: EncodedQuad| #[trigger] self.quads().contains(q) <==> old_self.quads().contains(q) && !quads@.contains(q) by {
                if quads@.contains(q) {
                    let a = choose|a: int| 0 <= a < quads@.len() && quads@[a] == q;
                    assert(exists|b: int| 0 <= b < quads@.len() && quads@[b] == q);
                }
            }
        }
    }

    /// Removes the quads of a graph; the graph stays among the named graphs.
    pub fn clear_encoded_graph(&mut self, graph_name: &EncodedTerm)
        requires
            old(self).wf(),
            term_wf(*graph_name),
        ensures
            final(self).wf(),
            final(self).quads() == old(self).quads().filter(|q: EncodedQuad| q.graph_name != *graph_name),
            final(self).named_graphs_view() == old(self).named_graphs_view(),
            final(self).string_bytes() == old(self).string_bytes(),
            final(self).version() == old(self).version(),
    {
        let ghost old_self = *self;
        if graph_name.is_default_graph() {
            self.dspo.clear();
            self.dpos.clear();
            self.dosp.clear();
            assert(self.quads() =~= old_self.quads().filter(|q: EncodedQuad| q.graph_name != *graph_name));
            assert(self.named_graphs_view() =~= old_self.named_graphs_view());
        } else {
            let quads = self.encoded_quads_for_named_graph(graph_name);
            proof {
                assert forall|a: int| 0 <= a < quads@.len() implies storable(#[trigger] quads@[a]) by {
                    assert(quads@.contains(quads@[a]));
                }
            }
            self.remove_all_encoded(&quads);
            assert(self.quads() =~= old_self.quads().filter(|q: EncodedQuad| q.graph_name != *graph_name));
        }
    }

    /// Removes a named graph and its quads.
    pub fn remove_encoded_named_graph(&mut self, graph_name: &EncodedTerm)
        requires
            old(self).wf(),
            graph_name_wf(*graph_name),
        ensures
            final(self).wf(),
            final(self).quads() == old(self).quads().filter(|q: EncodedQuad| q.graph_name != *graph_name),
            final(self).named_graphs_view() == old(self).named_graphs_view().remove(*graph_name),
            final(self).string_bytes() == old(self).string_bytes(),
            final(self).version() == old(self).version(),
    {
        let ghost old_self = *self;
        self.clear_encoded_graph(graph_name);
        let ghost mid = *self;
        self.graphs.remove(term_key(graph_name).as_slice());
        proof {
            assert forall|q: EncodedQuad| quad_wf(QuadEncoding::Gspo, q) && #[trigger] has_quad(self.gspo, QuadEncoding::Gspo, q)
                implies self.graphs.view().contains_key(term_bytes(q.graph_name)) by {
                assert(mid.quads().contains(q));
                if term_bytes(q.graph_name) == term_bytes(*graph_name) {
                    lemma_term_bytes_injective(q.graph_name, *graph_name);
                }
            }
            assert forall|k: Seq<u8>| #[trigger] self.graphs.view().contains_key(k) implies exists|g: EncodedTerm|
                graph_name_wf(g) && k == #[trigger] term_bytes(g) by {
                assert(mid.graphs.view().contains_key(k));
            }
            assert forall|g: EncodedTerm| #[trigger] self.named_graphs_view().contains(g) <==> mid.named_graphs_view().remove(*graph_name).contains(g) by {
                if graph_name_wf(g) && term_bytes(g) == term_bytes(*graph_name) {
                    lemma_term_bytes_injective(g, *graph_name);
                }
            }
            assert(self.quads() =~= mid.quads());
            assert(self.named_graphs_view() =~= mid.named_graphs_view().remove(*graph_name));
        }
    }
}

/// The map that a sequence of pairs of hash and string gives, a later pair
/// winning over an earlier one with the same hash.
pub open spec fn strings_map(s: Seq<(StrHash, Seq<char>)>) -> Map<StrHash, Seq<char>>
    decreases s.len(),
{
    if s.len() == 0 {
        Map::empty()
    } else {
        strings_map(s.drop_last()).insert(s.last().0, s.last().1)
    }
}

impl RocksDbStore {
    /// The long strings of the store, by their hash.
    pub closed spec fn strings(self) -> Map<StrHash, Seq<char>> {
        Map::new(
            |h: StrHash| self.id2str.view().contains_key(h.bytes()) && valid_utf8(self.id2str.view()[h.bytes()]),
            |h: StrHash| decode_utf8(self.id2str.view()[h.bytes()]),
        )
    }

    /// Stores with the same string bytes have the same strings.
    pub proof fn lemma_strings_of_bytes(self, other: RocksDbStore)
        requires
            self.string_bytes() == other.string_bytes(),
        ensures
            self.strings() == other.strings(),
    {
        assert(self.strings() =~= other.strings());
    }

    /// Records a string under its hash.
    fn insert_str(&mut self, key: &StrHash, value: &str)
        requires
            old(self).wf(),
        ensures
            final(self).wf(),
            final(self).quads() == old(self).quads(),
            final(self).named_graphs_view() == old(self).named_graphs_view(),
            final(self).strings() == old(self).strings().insert(*key, value@),
            final(self).version() == old(self).version(),
    {
        let ghost old_self = *self;
        let k = key.to_be_bytes();
        self.id2str.insert(&k, value.as_bytes());
        proof {
            vstd::utf8::encode_utf8_valid_utf8(value@);
            vstd::utf8::encode_utf8_decode_utf8(value@);
            assert forall|h: StrHash| #[trigger] self.strings().contains_key(h) <==> old_self.strings().insert(*key, value@).contains_key(h) by {
                h.lemma_bytes_roundtrip(h.bytes());
                key.lemma_bytes_roundtrip(key.bytes());
            }
            assert forall|h: StrHash| #[trigger] self.strings().contains_key(h) implies self.strings()[h] == old_self.strings().insert(*key, value@)[h] by {
                h.lemma_bytes_roundtrip(h.bytes());
                key.lemma_bytes_roundtrip(key.bytes());
            }
            assert(self.strings() =~= old_self.strings().insert(*key, value@));
            assert(self.quads() =~= old_self.quads());
            assert(self.named_graphs_view() =~= old_self.named_graphs_view());
        }
    }

    /// Records strings under their hashes, one after the other.
    pub(crate) fn insert_strs(&mut self, pairs: &Vec<(StrHash, String)>)
        requires
            old(self).wf(),
        ensures
            final(self).wf(),
            final(self).quads() == old(self).quads(),
            final(self).named_graphs_view() == old(self).named_graphs_view(),
            final(self).strings() == old(self).strings().union_prefer_right(strings_map(pair_views(pairs@))),
            final(self).version() == old(self).version(),
    {
        let ghost old_self = *self;
        let mut i: usize = 0;
        assert(pair_views(pairs@).take(0) =~= Seq::<(StrHash, Seq<char>)>::empty());
        assert(old_self.strings().union_prefer_right(Map::empty()) =~= old_self.strings());
        while i < pairs.len()
            invariant
                self.wf(),
                i <= pairs@.len(),
                self.quads() == old_self.quads(),
                self.named_graphs_view() == old_self.named_graphs_view(),
                self.version() == old_self.version(),
                self.strings() == old_self.strings().union_prefer_right(strings_map(pair_views(pairs@).take(i as int))),
            decreases pairs@.len() - i,
        {
            let ghost before = self.strings();
            self.insert_str(&pairs[i].0, pairs[i].1.as_str());
            proof {
                let pv = pair_views(pairs@);
                assert(pv.take(i + 1).drop_last() =~= pv.take(i as int));
                assert(pv.take(i + 1).last() == pv[i as int]);
                assert(self.strings() =~= old_self.strings().union_prefer_right(strings_map(pv.take(i + 1))));
            }
            i = i + 1;
        }
        assert(pair_views(pairs@).take(pairs@.len() as int) =~= pair_views(pairs@));
    }
}

/// The map after writing pairs one after the other, where a hash that the
/// map already has keeps its string.
pub open spec fn first_wins(m: Map<StrHash, Seq<char>>, pairs: Seq<(StrHash, Seq<char>)>) -> Map<
    StrHash,
    Seq<char>,
>
    decreases pairs.len(),
{
    if pairs.len() == 0 {
        m
    } else {
        let r = first_wins(m, pairs.drop_last());
        if r.contains_key(pairs.last().0) {
            r
        } else {
            r.insert(pairs.last().0, pairs.last().1)
        }
    }
}

impl RocksDbStore {
    /// Records strings under their hashes, one after the other, leaving a
    /// hash that has a string as it is.
    pub(crate) fn insert_strs_if_absent(&mut self, pairs: &Vec<(StrHash, String)>)
        requires
            old(self).wf(),
        ensures
            final(self).wf(),
            final(self).quads() == old(self).quads(),
            final(self).named_graphs_view() == old(self).named_graphs_view(),
            final(self).strings() == first_wins(old(self).strings(), pair_views(pairs@)),
            final(self).version() == old(self).version(),
    {
        let ghost old_self = *self;
        let mut i: usize = 0;
        assert(pair_views(pairs@).take(0) =~= Seq::<(StrHash, Seq<char>)>::empty());
        while i < pairs.len()
            invariant
                self.wf(),
                i <= pairs@.len(),
                self.quads() == old_self.quads(),
                self.named_graphs_view() == old_self.named_graphs_view(),
                self.version() == old_self.version(),
                self.strings() == first_wins(old_self.strings(), pair_views(pairs@).take(i as int)),
            decreases pairs@.len() - i,
        {
            let k = pairs[i].0.to_be_bytes();
            let present = self.id2str.contains_key(&k);
            proof {
                let h = pairs@[i as int].0;
                assert(present == self.strings().contains_key(h));
            }
            if !present {
                self.insert_str(&pairs[i].0, pairs[i].1.as_str());
            }
            proof {
                let pv = pair_views(pairs@);
                assert(pv.take(i + 1).drop_last() =~= pv.take(i as int));
                assert(pv.take(i + 1).last() == pv[i as int]);
            }
            i = i + 1;
        }
        assert(pair_views(pairs@).take(pairs@.len() as int) =~= pair_views(pairs@));
    }
}

impl RocksDbStore {
    /// A new empty store; it records no storage version yet (`open` does).
    pub fn new() -> (r: Self)
        ensures
            r.wf(),
            r.quads() == Set::<EncodedQuad>::empty(),
            r.named_graphs_view() == Set::<EncodedTerm>::empty(),
            r.strings() == Map::<StrHash, Seq<char>>::empty(),
            r.version() is None,
    {
        let r = RocksDbStore {
            default_cf: Tree::new(),
            id2str: Tree::new(),
            spog: Tree::new(),
            posg: Tree::new(),
            ospg: Tree::new(),
            gspo: Tree::new(),
            gpos: Tree::new(),
            gosp: Tree::new(),
            dspo: Tree::new(),
            dpos: Tree::new(),
            dosp: Tree::new(),
            graphs: Tree::new(),
        };
        assert(r.quads() =~= Set::<EncodedQuad>::empty());
        assert(r.named_graphs_view() =~= Set::<EncodedTerm>::empty());
        assert(r.strings() =~= Map::<StrHash, Seq<char>>::empty());
        r
    }

    /// Adds a quad to the store, with its graph among the named graphs and
    /// its long strings in the string store.
    pub fn insert(&mut self, quad: &Quad) -> (r: Result<(), StorageError>)
        requires
            old(self).wf(),
        ensures
            r is Ok,
            final(self).wf(),
            final(self).quads() == old(self).quads().insert(encode_quad_spec(*quad)),
            final(self).named_graphs_view() == (if quad.graph_name is DefaultGraph {
                old(self).named_graphs_view()
            } else {
                old(self).named_graphs_view().insert(encode_graph_name_spec(quad.graph_name))
            }),
            final(self).strings() == old(self).strings().union_prefer_right(strings_map(quad_strings_spec(*quad))),
            final(self).version() == old(self).version(),
    {
        let encoder = TermEncoder::new();
        let encoded = encoder.encode_quad(quad);
        let mut strs: Vec<(StrHash, String)> = Vec::new();
        insert_quad_strings(quad, &encoded, &mut strs);
        assert(pair_views(strs@) =~= quad_strings_spec(*quad));
        self.insert_strs(&strs);
        proof {
            lemma_encode_term_wf(quad.subject);
            lemma_encode_term_wf(quad.object);
            lemma_encode_graph_name_wf(quad.graph_name);
        }
        self.insert_encoded(&encoded);
        Ok(())
    }

    /// Records the strings that the encoding of a term keeps by their hash.
    pub fn insert_term(&mut self, term: &Term, encoded: &EncodedTerm) -> (r: Result<(), StorageError>)
        requires
            old(self).wf(),
            *encoded == encode_term_spec(*term),
        ensures
            r is Ok,
            final(self).wf(),
            final(self).quads() == old(self).quads(),
            final(self).named_graphs_view() == old(self).named_graphs_view(),
            final(self).strings() == old(self).strings().union_prefer_right(strings_map(term_strings_spec(*term))),
            final(self).version() == old(self).version(),
    {
        let mut strs: Vec<(StrHash, String)> = Vec::new();
        crate::term_encoder::collect_term_strings(term, encoded, &mut strs);
        assert(pair_views(strs@) =~= term_strings_spec(*term));
        self.insert_strs(&strs);
        Ok(())
    }

    /// Removes a quad from the store, where the store has its strings; its
    /// strings and graph stay.
    pub fn remove(&mut self, quad: &Quad) -> (r: Result<(), StorageError>)
        requires
            old(self).wf(),
        ensures
            r is Ok,
            final(self).wf(),
            final(self).quads() == (if strings_present(old(self).strings(), quad_strings_spec(*quad)) {
                old(self).quads().remove(encode_quad_spec(*quad))
            } else {
                old(self).quads()
            }),
            final(self).named_graphs_view() == old(self).named_graphs_view(),
            final(self).strings() == old(self).strings(),
            final(self).version() == old(self).version(),
    {
        match self.get_encoded_quad(quad) {
            Ok(Some(encoded)) => {
                proof {
                    lemma_encode_term_wf(quad.subject);
                    lemma_encode_term_wf(quad.object);
                    lemma_encode_graph_name_wf(quad.graph_name);
                }
                self.remove_encoded(&encoded);
                Ok(())
            },
            _ => Ok(()),
        }
    }

    /// Whether the store holds the quad and has its strings.
    pub fn contains(&self, quad: &Quad) -> (r: Result<bool, StorageError>)
        requires
            self.wf(),
        ensures
            r == Ok::<bool, StorageError>(contains_quad(*self, *quad)),
    {
        match self.get_encoded_quad(quad) {
            Ok(Some(encoded)) => {
                proof {
                    lemma_encode_term_wf(quad.subject);
                    lemma_encode_term_wf(quad.object);
                    lemma_encode_graph_name_wf(quad.graph_name);
                }
                Ok(self.contains_encoded(&encoded))
            },
            _ => Ok(false),
        }
    }

    /// Adds a named graph, which may hold no quad.
    pub fn insert_named_graph(&mut self, graph_name: &NamedOrBlankNode) -> (r: Result<(), StorageError>)
        requires
            old(self).wf(),
        ensures
            r is Ok,
            final(self).wf(),
            final(self).quads() == old(self).quads(),
            final(self).named_graphs_view() == old(self).named_graphs_view().insert(
                encode_named_or_blank_node_spec(*graph_name),
            ),
            final(self).strings() == old(self).strings().union_prefer_right(
                strings_map(named_or_blank_node_strings_spec(*graph_name)),
            ),
            final(self).version() == old(self).version(),
    {
        let encoder = TermEncoder::new();
        let encoded = encoder.encode_named_or_blank_node(graph_name);
        let mut strs: Vec<(StrHash, String)> = Vec::new();
        insert_named_or_blank_node(graph_name, &encoded, &mut strs);
        assert(pair_views(strs@) =~= named_or_blank_node_strings_spec(*graph_name));
        self.insert_strs(&strs);
        proof {
            lemma_encode_named_or_blank_node_wf(*graph_name);
        }
        self.insert_encoded_named_graph(&encoded);
        Ok(())
    }

    /// Whether the store knows the named graph.
    pub fn contains_named_graph(&self, graph_name: &NamedOrBlankNode) -> (r: Result<bool, StorageError>)
        requires
            self.wf(),
        ensures
            r == Ok::<bool, StorageError>(self.named_graphs_view().contains(
                encode_named_or_blank_node_spec(*graph_name),
            )),
    {
        let encoder = TermEncoder::new();
        let encoded = encoder.encode_named_or_blank_node(graph_name);
        proof {
            lemma_encode_named_or_blank_node_wf(*graph_name);
        }
        Ok(self.contains_encoded_named_graph(&encoded))
    }

    /// Removes the quads of a graph; a named graph stays known.
    pub fn clear_graph(&mut self, graph_name: &GraphName) -> (r: Result<(), StorageError>)
        requires
            old(self).wf(),
        ensures
            r is Ok,
            final(self).wf(),
            final(self).quads() == old(self).quads().filter(
                |q: EncodedQuad| q.graph_name != encode_graph_name_spec(*graph_name),
            ),
            final(self).named_graphs_view() == old(self).named_graphs_view(),
            final(self).strings() == old(self).strings(),
            final(self).version() == old(self).version(),
    {
        let encoder = TermEncoder::new();
        let encoded = encoder.encode_graph_name(graph_name);
        proof {
            lemma_encode_graph_name_wf(*graph_name);
        }
        self.clear_encoded_graph(&encoded);
        Ok(())
    }

    /// Removes a named graph and its quads.
    pub fn remove_named_graph(&mut self, graph_name: &NamedOrBlankNode) -> (r: Result<(), StorageError>)
        requires
            old(self).wf(),
        ensures
            r is Ok,
            final(self).wf(),
            final(self).quads() == old(self).quads().filter(
                |q: EncodedQuad| q.graph_name != encode_named_or_blank_node_spec(*graph_name),
            ),
            final(self).named_graphs_view() == old(self).named_graphs_view().remove(
                encode_named_or_blank_node_spec(*graph_name),
            ),
            final(self).strings() == old(self).strings(),
            final(self).version() == old(self).version(),
    {
        let encoder = TermEncoder::new();
        let encoded = encoder.encode_named_or_blank_node(graph_name);
        proof {
            lemma_encode_named_or_blank_node_wf(*graph_name);
        }
        self.remove_encoded_named_graph(&encoded);
        Ok(())
    }

    /// Removes every quad, named graph and string.
    pub fn clear(&mut self) -> (r: Result<(), StorageError>)
        requires
            old(self).wf(),
        ensures
            r is Ok,
            final(self).wf(),
            final(self).quads() == Set::<EncodedQuad>::empty(),
            final(self).named_graphs_view() == Set::<EncodedTerm>::empty(),
            final(self).strings() == Map::<StrHash, Seq<char>>::empty(),
            final(self).version() == old(self).version(),
    {
        self.clear_encoded();
        assert(self.strings() =~= Map::<StrHash, Seq<char>>::empty());
        Ok(())
    }
}

/// The encodings of the quads of a sequence.
pub open spec fn quads_of(qs: Seq<Quad>) -> Set<EncodedQuad> {
    Set::new(|e: EncodedQuad| exists|i: int| 0 <= i < qs.len() && e == encode_quad_spec(#[trigger] qs[i]))
}

/// The encoded names of the named graphs of the quads of a sequence.
pub open spec fn graphs_of(qs: Seq<Quad>) -> Set<EncodedTerm> {
    Set::new(
        |g: EncodedTerm|
            exists|i: int|
                0 <= i < qs.len() && !(qs[i].graph_name is DefaultGraph) && g == encode_graph_name_spec(
                    (#[trigger] qs[i]).graph_name,
                ),
    )
}

/// The strings kept by their hash of the quads of a sequence, in order.
pub open spec fn quads_strings(qs: Seq<Quad>) -> Seq<(StrHash, Seq<char>)>
    decreases qs.len(),
{
    if qs.len() == 0 {
        Seq::empty()
    } else {
        quads_strings(qs.drop_last()) + quad_strings_spec(qs.last())
    }
}


/// The map of pairs that follow other pairs is the map of the first pairs
/// updated by that of the second.
pub proof fn lemma_strings_map_concat(a: Seq<(StrHash, Seq<char>)>, b: Seq<(StrHash, Seq<char>)>)
    ensures
        strings_map(a + b) == strings_map(a).union_prefer_right(strings_map(b)),
    decreases b.len(),
{
    if b.len() == 0 {
        assert(a + b =~= a);
        assert(strings_map(a).union_prefer_right(strings_map(b)) =~= strings_map(a));
    } else {
        lemma_strings_map_concat(a, b.drop_last());
        assert((a + b).drop_last() =~= a + b.drop_last());
        assert((a + b).last() == b.last());
        assert(strings_map(a + b) =~= strings_map(a).union_prefer_right(strings_map(b)));
    }
}

impl RocksDbStore {
    /// Records the version of the storage format.
    fn set_version(&mut self, version: u64)
        requires
            old(self).wf(),
        ensures
            final(self).wf(),
            final(self).quads() == old(self).quads(),
            final(self).named_graphs_view() == old(self).named_graphs_view(),
            final(self).strings() == old(self).strings(),
            final(self).version() == Some(u64_to_be(version)),
    {
        let ghost old_self = *self;
        let bytes = u64_to_be_bytes(version);
        self.default_cf.insert("oxversion".as_bytes(), &bytes);
        assert(self.quads() =~= old_self.quads());
        assert(self.named_graphs_view() =~= old_self.named_graphs_view());
        assert(self.strings() =~= old_self.strings());
    }

    /// The recorded version of the storage format; records the latest one
    /// where none is recorded.
    fn ensure_version(&mut self) -> (r: Result<u64, StorageError>)
        requires
            old(self).wf(),
        ensures
            final(self).wf(),
            final(self).quads() == old(self).quads(),
            final(self).named_graphs_view() == old(self).named_graphs_view(),
            final(self).strings() == old(self).strings(),
            old(self).version() is None ==> r == Ok::<u64, StorageError>(LATEST_STORAGE_VERSION)
                && final(self).version() == Some(u64_to_be(LATEST_STORAGE_VERSION)),
            old(self).version() matches Some(b) ==> final(self).version() == old(self).version() && (
            if b.len() == 8 {
                r == Ok::<u64, StorageError>(u64_from_be(b))
            } else {
                r is Err
            }),
            r matches Err(e) ==> e is Corruption,
    {
        match self.default_cf.get("oxversion".as_bytes()) {
            Some(v) => {
                if v.len() == 8 {
                    let buffer: [u8; 8] = [v[0], v[1], v[2], v[3], v[4], v[5], v[6], v[7]];
                    assert(buffer@ =~= v@);
                    Ok(u64_from_be_bytes(buffer))
                } else {
                    Err(StorageError::Corruption(CorruptionError::Msg("The stored version is not 8 bytes long".to_owned())))
                }
            },
            None => {
                self.set_version(LATEST_STORAGE_VERSION);
                Ok(LATEST_STORAGE_VERSION)
            },
        }
    }

    /// Records the version of the storage format, as a store written by
    /// another release would hold it.
    pub fn write_version(&mut self, version: u64)
        requires
            old(self).wf(),
        ensures
            final(self).wf(),
            final(self).quads() == old(self).quads(),
            final(self).named_graphs_view() == old(self).named_graphs_view(),
            final(self).strings() == old(self).strings(),
            final(self).version() == Some(u64_to_be(version)),
    {
        self.set_version(version);
    }

    /// Adds the graph name of every quad in a named graph to the named
    /// graphs.
    fn index_quad_graphs(&mut self)
        requires
            old(self).wf(),
        ensures
            final(self).wf(),
            final(self).quads() == old(self).quads(),
            final(self).named_graphs_view() == old(self).named_graphs_view() + quad_graphs(old(self).quads()),
            final(self).strings() == old(self).strings(),
            final(self).version() == old(self).version(),
    {
        let ghost old_self = *self;
        let all = self.encoded_quads();
        let mut i: usize = 0;
        while i < all.len()
            invariant
                self.wf(),
                i <= all@.len(),
                forall|q: EncodedQuad| #[trigger] all@.contains(q) <==> old_self.quads().contains(q),
                self.quads() == old_self.quads(),
                self.string_bytes() == old_self.string_bytes(),
                self.version() == old_self.version(),
                self.named_graphs_view() == old_self.named_graphs_view() + Set::new(
                    |g: EncodedTerm| exists|j: int| 0 <= j < i && !(all@[j].graph_name is DefaultGraph) && #[trigger] all@[j].graph_name == g,
                ),
            decreases all@.len() - i,
        {
            let ghost before = self.named_graphs_view();
            let q = &all[i];
            assert(all@.contains(all@[i as int]));
            if !q.graph_name.is_default_graph() {
                assert(storable(all@[i as int]));
                self.insert_encoded_named_graph(&q.graph_name);
            }
            assert(self.named_graphs_view() =~= old_self.named_graphs_view() + Set::new(
                |g: EncodedTerm| exists|j: int| 0 <= j < i + 1 && !(all@[j].graph_name is DefaultGraph) && #[trigger] all@[j].graph_name == g,
            )) by {
                assert forall|g: EncodedTerm| #[trigger] self.named_graphs_view().contains(g) implies old_self.named_graphs_view().contains(g) || exists|j: int| 0 <= j < i + 1 && !(all@[j].graph_name is DefaultGraph) && #[trigger] all@[j].graph_name == g by {
                    if before.contains(g) && !old_self.named_graphs_view().contains(g) {
                        let j = choose|j: int| 0 <= j < i && !(all@[j].graph_name is DefaultGraph) && #[trigger] all@[j].graph_name == g;
                        assert(0 <= j < i + 1);
                    }
                }
                assert forall|g: EncodedTerm| (exists|j: int| 0 <= j < i + 1 && !(all@[j].graph_name is DefaultGraph) && #[trigger] all@[j].graph_name == g) implies #[trigger] self.named_graphs_view().contains(g) by {
                    let j = choose|j: int| 0 <= j < i + 1 && !(all@[j].graph_name is DefaultGraph) && #[trigger] all@[j].graph_name == g;
                    if j < i {
                        assert(before.contains(g));
                    }
                }
            }
            i = i + 1;
        }
        assert(Set::new(
            |g: EncodedTerm| exists|j: int| 0 <= j < all@.len() && !(all@[j].graph_name is DefaultGraph) && #[trigger] all@[j].graph_name == g,
        ) =~= quad_graphs(old_self.quads())) by {
            assert forall|g: EncodedTerm| quad_graphs(old_self.quads()).contains(g) implies exists|j: int| 0 <= j < all@.len() && !(all@[j].graph_name is DefaultGraph) && #[trigger] all@[j].graph_name == g by {
                let q = choose|q: EncodedQuad| old_self.quads().contains(q) && !(q.graph_name is DefaultGraph) && q.graph_name == g;
                assert(all@.contains(q));
                let j = choose|j: int| 0 <= j < all@.len() && all@[j] == q;
                assert(all@[j].graph_name == g);
            }
            assert forall|g: EncodedTerm| (exists|j: int| 0 <= j < all@.len() && !(all@[j].graph_name is DefaultGraph) && #[trigger] all@[j].graph_name == g) implies quad_graphs(old_self.quads()).contains(g) by {
                let j = choose|j: int| 0 <= j < all@.len() && !(all@[j].graph_name is DefaultGraph) && #[trigger] all@[j].graph_name == g;
                assert(all@.contains(all@[j]));
            }
        }
        assert(self.strings() =~= old_self.strings());
    }

    /// Checks the recorded version of the storage format: where there is
    /// none, the latest one is recorded; a store at version 0 gets its named
    /// graphs indexed from its quads and is brought to version 1; version 1
    /// is accepted; a more recent version, or a record that is not 8 bytes
    /// long, is refused and leaves the store as it is.
    pub fn check_version(&mut self) -> (r: Result<(), StorageError>)
        requires
            old(self).wf(),
        ensures
            final(self).wf(),
            final(self).quads() == old(self).quads(),
            final(self).strings() == old(self).strings(),
            old(self).version() is None ==> r is Ok && final(self).version() == Some(u64_to_be(LATEST_STORAGE_VERSION))
                && final(self).named_graphs_view() == old(self).named_graphs_view(),
            old(self).version() matches Some(b) ==> {
                if b.len() != 8 || u64_from_be(b) > LATEST_STORAGE_VERSION {
                    &&& r matches Err(e)
                    &&& e is Corruption
                    &&& final(self).version() == old(self).version()
                    &&& final(self).named_graphs_view() == old(self).named_graphs_view()
                } else if u64_from_be(b) == 0 {
                    &&& r is Ok
                    &&& final(self).version() == Some(u64_to_be(1))
                    &&& final(self).named_graphs_view() == old(self).named_graphs_view() + quad_graphs(old(self).quads())
                } else {
                    &&& r is Ok
                    &&& final(self).version() == old(self).version()
                    &&& final(self).named_graphs_view() == old(self).named_graphs_view()
                }
            },
    {
        let mut version = match self.ensure_version() {
            Ok(v) => v,
            Err(e) => return Err(e),
        };
        if version == 0 {
            self.index_quad_graphs();
            self.set_version(1);
            version = 1;
        }
        if version < LATEST_STORAGE_VERSION {
            Err(StorageError::Corruption(CorruptionError::Msg("The database is using an outdated encoding version".to_owned())))
        } else if version == LATEST_STORAGE_VERSION {
            Ok(())
        } else {
            Err(StorageError::Corruption(CorruptionError::Msg("The database is using a too recent version".to_owned())))
        }
    }

    /// Opens an empty store at the latest version of the storage format.
    pub fn open() -> (r: Result<Self, StorageError>)
        ensures
            r is Ok,
            r matches Ok(s) ==> s.wf() && s.quads() == Set::<EncodedQuad>::empty()
                && s.named_graphs_view() == Set::<EncodedTerm>::empty() && s.strings() == Map::<
                StrHash,
                Seq<char>,
            >::empty() && s.version() == Some(u64_to_be(LATEST_STORAGE_VERSION)),
    {
        let mut this = Self::new();
        match this.check_version() {
            Ok(()) => Ok(this),
            Err(e) => Err(e),
        }
    }

    /// Adds the quads of a document, one after the other, each blank node
    /// label of the document standing for one fresh blank node.
    pub fn load_dataset(&mut self, quads: &Vec<Quad>) -> (r: Result<(), StorageError>)
        requires
            old(self).wf(),
        ensures
            r is Ok,
            final(self).wf(),
            exists|rs: Seq<Quad>| #[trigger] loaded_quads(quads@, rs) && {
                &&& final(self).quads() == old(self).quads() + quads_of(rs)
                &&& final(self).named_graphs_view() == old(self).named_graphs_view() + graphs_of(rs)
                &&& final(self).strings() == old(self).strings().union_prefer_right(strings_map(quads_strings(rs)))
            },
            final(self).version() == old(self).version(),
    {
        let relabeled = relabel_quads(quads);
        self.add_quads(&relabeled)
    }

    /// Adds the triples of a document, in the given graph, one after the
    /// other, each blank node label of the document standing for one fresh
    /// blank node.
    pub fn load_graph(&mut self, triples: &Vec<Triple>, to_graph_name: &GraphName) -> (r: Result<(), StorageError>)
        requires
            old(self).wf(),
        ensures
            r is Ok,
            final(self).wf(),
            exists|rs: Seq<Quad>| #[trigger] loaded_triples(triples@, *to_graph_name, rs) && {
                &&& final(self).quads() == old(self).quads() + quads_of(rs)
                &&& final(self).named_graphs_view() == old(self).named_graphs_view() + graphs_of(rs)
                &&& final(self).strings() == old(self).strings().union_prefer_right(strings_map(quads_strings(rs)))
            },
            final(self).version() == old(self).version(),
    {
        let relabeled = relabel_triples(triples, to_graph_name);
        self.add_quads(&relabeled)
    }

    /// Adds the quads, one after the other.
    pub(crate) fn add_quads(&mut self, quads: &Vec<Quad>) -> (r: Result<(), StorageError>)
        requires
            old(self).wf(),
        ensures
            r is Ok,
            final(self).wf(),
            final(self).quads() == old(self).quads() + quads_of(quads@),
            final(self).named_graphs_view() == old(self).named_graphs_view() + graphs_of(quads@),
            final(self).strings() == old(self).strings().union_prefer_right(strings_map(quads_strings(quads@))),
            final(self).version() == old(self).version(),
    {
        let ghost old_self = *self;
        let mut i: usize = 0;
        assert(quads@.take(0) =~= Seq::<Quad>::empty());
        assert(old_self.quads() + quads_of(quads@.take(0)) =~= old_self.quads());
        assert(old_self.named_graphs_view() + graphs_of(quads@.take(0)) =~= old_self.named_graphs_view());
        assert(old_self.strings().union_prefer_right(strings_map(quads_strings(quads@.take(0)))) =~= old_self.strings());
        while i < quads.len()
            invariant
                self.wf(),
                i <= quads@.len(),
                self.quads() == old_self.quads() + quads_of(quads@.take(i as int)),
                self.named_graphs_view() == old_self.named_graphs_view() + graphs_of(quads@.take(i as int)),
                self.strings() == old_self.strings().union_prefer_right(strings_map(quads_strings(quads@.take(i as int)))),
                self.version() == old_self.version(),
            decreases quads@.len() - i,
        {
            let ghost q = quads@[i as int];
            let ghost before = *self;
            match self.insert(&quads[i]) {
                _ => {},
            }
            proof {
                let t = quads@.take(i as int);
                let t1 = quads@.take(i + 1);
                assert(t1.drop_last() =~= t);
                assert(t1.last() == q);
                assert forall|e: EncodedQuad| #[trigger] quads_of(t1).contains(e) <==> quads_of(t).insert(encode_quad_spec(q)).contains(e) by {
                    if quads_of(t).contains(e) {
                        let j = choose|j: int| 0 <= j < t.len() && e == encode_quad_spec(#[trigger] t[j]);
                        assert(t1[j] == t[j]);
                    }
                    if quads_of(t1).contains(e) {
                        let j = choose|j: int| 0 <= j < t1.len() && e == encode_quad_spec(#[trigger] t1[j]);
                        if j < i {
                            assert(t1[j] == t[j]);
                        }
                    }
                    if e == encode_quad_spec(q) {
                        assert(t1[i as int] == q);
                    }
                }
                assert(self.quads() =~= old_self.quads() + quads_of(t1));
                assert forall|g: EncodedTerm| #[trigger] graphs_of(t1).contains(g) <==> (graphs_of(t).contains(g) || (!(q.graph_name is DefaultGraph) && g == encode_graph_name_spec(q.graph_name))) by {
                    if graphs_of(t).contains(g) {
                        let j = choose|j: int| 0 <= j < t.len() && !(t[j].graph_name is DefaultGraph) && g == encode_graph_name_spec((#[trigger] t[j]).graph_name);
                        assert(t1[j] == t[j]);
                    }
                    if graphs_of(t1).contains(g) {
                        let j = choose|j: int| 0 <= j < t1.len() && !(t1[j].graph_name is DefaultGraph) && g == encode_graph_name_spec((#[trigger] t1[j]).graph_name);
                        if j < i {
                            assert(t1[j] == t[j]);
                        }
                    }
                    if !(q.graph_name is DefaultGraph) && g == encode_graph_name_spec(q.graph_name) {
                        assert(t1[i as int] == q);
                    }
                }
                assert(self.named_graphs_view() =~= old_self.named_graphs_view() + graphs_of(t1));
                lemma_strings_map_concat(quads_strings(t), quad_strings_spec(q));
                assert(quads_strings(t1) == quads_strings(t) + quad_strings_spec(q));
                assert(self.strings() =~= old_self.strings().union_prefer_right(strings_map(quads_strings(t1))));
            }
            i = i + 1;
        }
        assert(quads@.take(quads@.len() as int) =~= quads@);
        Ok(())
    }
}

impl StrLookup for RocksDbStore {
    open spec fn lookup_wf(&self) -> bool {
        self.wf()
    }

    open spec fn str_map(&self) -> Map<StrHash, Seq<char>> {
        self.strings()
    }

    fn get_str(&self, key: &StrHash) -> (r: Result<Option<String>, StorageError>) {
        let k = key.to_be_bytes();
        match self.id2str.get_any(&k) {
            Some(bytes) => match str_from_utf8(bytes.as_slice()) {
                Ok(s) => {
                    proof {
                        vstd::utf8::encode_utf8_decode_utf8(s@);
                    }
                    Ok(Some(s.to_owned()))
                },
                Err(_) => Ok(None),
            },
            None => Ok(None),
        }
    }

    fn contains_str(&self, key: &StrHash) -> (r: Result<bool, StorageError>) {
        match self.get_str(key) {
            Ok(Some(_)) => Ok(true),
            _ => Ok(false),
        }
    }
}

/// Whether `k` is the key of a quad in the given order.
pub open spec fn is_quad_key(e: QuadEncoding, k: Seq<u8>) -> bool {
exists|q: EncodedQuad| quad_wf(e, q) && k == quad_bytes(e, q)
}

proof fn lemma_empty_prefix(p: Seq<u8>, k: Seq<u8>)
requires
    p.len() == 0,
ensures
    is_prefix(p, k),
{
assert(k.take(0) =~= p);
}

/// Whether the quad decodes from one of the encoded quads.
pub open spec fn decoded_from(encoded: Set<EncodedQuad>, strs: Map<StrHash, Seq<char>>, q: Quad) -> bool {
    exists|e: EncodedQuad| encoded.contains(e) && #[trigger] quad_decodes_to(e, strs, q)
}

/// Whether one of the decoded quads decodes from the encoded quad.
pub open spec fn decoded_in(decoded: Seq<Quad>, strs: Map<StrHash, Seq<char>>, e: EncodedQuad) -> bool {
    exists|i: int| 0 <= i < decoded.len() && #[trigger] quad_decodes_to(e, strs, decoded[i])
}

/// Whether the decoded quads are those of the encoded ones: each decodes
/// from one of them, and each of them is decoded by one.
pub open spec fn decoded_quads(encoded: Set<EncodedQuad>, strs: Map<StrHash, Seq<char>>, decoded: Seq<Quad>) -> bool {
    &&& forall|i: int| 0 <= i < decoded.len() ==> #[trigger] decoded_from(encoded, strs, decoded[i])
    &&& forall|e: EncodedQuad| #[trigger] encoded.contains(e) ==> decoded_in(decoded, strs, e)
}

/// Decoding a list of the encoded quads of a set gives the decoded quads of the set.
pub(crate) proof fn lemma_decoded_quads(
    set: Set<EncodedQuad>,
    strs: Map<StrHash, Seq<char>>,
    es: Seq<EncodedQuad>,
    r: Result<Vec<Quad>, StorageError>,
)
    requires
        forall|q: EncodedQuad| #[trigger] es.contains(q) <==> set.contains(q),
        r is Ok <==> forall|a: int| 0 <= a < es.len() ==> quad_decodable(#[trigger] es[a], strs),
        r matches Ok(v) ==> v@.len() == es.len() && forall|a: int| 0 <= a < v@.len() ==> quad_decodes_to(es[a], strs, #[trigger] v@[a]),
    ensures
        r is Ok <==> forall|e: EncodedQuad| #[trigger] set.contains(e) ==> quad_decodable(e, strs),
        r matches Ok(v) ==> decoded_quads(set, strs, v@),
{
    if r is Ok {
        let v = r->Ok_0@;
        assert forall|i: int| 0 <= i < v.len() implies #[trigger] decoded_from(set, strs, v[i]) by {
            assert(es.contains(es[i]));
            assert(quad_decodes_to(es[i], strs, v[i]));
        }
        assert forall|e: EncodedQuad| #[trigger] set.contains(e) implies decoded_in(v, strs, e) by {
            assert(es.contains(e));
            let a = choose|a: int| 0 <= a < es.len() && es[a] == e;
            assert(quad_decodes_to(es[a], strs, v[a]));
        }
    }
    if forall|a: int| 0 <= a < es.len() ==> quad_decodable(#[trigger] es[a], strs) {
        assert forall|e: EncodedQuad| #[trigger] set.contains(e) implies quad_decodable(e, strs) by {
            assert(es.contains(e));
            let a = choose|a: int| 0 <= a < es.len() && es[a] == e;
            assert(quad_decodable(es[a], strs));
        }
    } else {
        let a = choose|a: int| 0 <= a < es.len() && !quad_decodable(#[trigger] es[a], strs);
        assert(es.contains(es[a]));
    }
}

/// Whether quad `a` comes before quad `b` when the quads of the default
/// graph are read from index `ed`, in its key order, and then the others
/// from index `en`, in its key order.
pub open spec fn index_before(ed: QuadEncoding, en: QuadEncoding, a: EncodedQuad, b: EncodedQuad) -> bool {
    if a.graph_name is DefaultGraph {
        !(b.graph_name is DefaultGraph) || lex_lt(quad_bytes(ed, a), quad_bytes(ed, b))
    } else {
        !(b.graph_name is DefaultGraph) && lex_lt(quad_bytes(en, a), quad_bytes(en, b))
    }
}

/// Whether a list holds the quads of a set, each once, in the order of the
/// indexes `ed` and `en`.
pub open spec fn in_index_order(quads: Set<EncodedQuad>, l: Seq<EncodedQuad>, ed: QuadEncoding, en: QuadEncoding) -> bool {
    &&& forall|q: EncodedQuad| #[trigger] l.contains(q) <==> quads.contains(q)
    &&& forall|i: int, j: int| 0 <= i < j < l.len() ==> index_before(ed, en, #[trigger] l[i], #[trigger] l[j])
}

/// Whether a list holds the quads of a set, each once, in the order of the
/// store's keys: the quads of the default graph first, by their `dspo`
/// keys, then the others by their `gspo` keys.
pub open spec fn in_key_order(quads: Set<EncodedQuad>, l: Seq<EncodedQuad>) -> bool {
    in_index_order(quads, l, QuadEncoding::Dspo, QuadEncoding::Gspo)
}

/// Whether the decoded quads decode, one for one, from the quads of a set
/// listed in the order of the indexes `ed` and `en`.
pub open spec fn decoded_in_index_order(
    quads: Set<EncodedQuad>,
    strs: Map<StrHash, Seq<char>>,
    v: Seq<Quad>,
    ed: QuadEncoding,
    en: QuadEncoding,
) -> bool {
    exists|l: Seq<EncodedQuad>| #[trigger] in_index_order(quads, l, ed, en) && v.len() == l.len() && forall|a: int|
        0 <= a < l.len() ==> quad_decodes_to(l[a], strs, #[trigger] v[a])
}

/// Whether the decoded quads decode, one for one, from the quads of a set
/// listed in key order.
pub open spec fn decoded_in_key_order(quads: Set<EncodedQuad>, strs: Map<StrHash, Seq<char>>, v: Seq<Quad>) -> bool {
    decoded_in_index_order(quads, strs, v, QuadEncoding::Dspo, QuadEncoding::Gspo)
}

/// Whether an encoded quad decodes with the strings `strs`.
pub open spec fn quad_decodable(e: EncodedQuad, strs: Map<StrHash, Seq<char>>) -> bool {
    decodable(EncodedTerm::Triple(Box::new(EncodedTriple {
        subject: e.subject,
        predicate: e.predicate,
        object: e.object,
    })), strs) && (e.graph_name is DefaultGraph || (decodable(e.graph_name, strs)
        && (e.graph_name is NamedNode || spec_is_blank_node(e.graph_name))))
}

impl RocksDbStore {
    /// Decodes the keys of a tree, each the key of a quad in the given order.
    pub(crate) fn decode_keys(keys: &Vec<Vec<u8>>, e: QuadEncoding) -> (r: Vec<EncodedQuad>)
        requires
            forall|a: int| 0 <= a < keys@.len() ==> is_quad_key(e, (#[trigger] keys@[a])@),
        ensures
            r@.len() == keys@.len(),
            forall|a: int| 0 <= a < r@.len() ==> quad_wf(e, #[trigger] r@[a]) && keys@[a]@ == quad_bytes(e, r@[a]),
    {
        let mut out: Vec<EncodedQuad> = Vec::new();
        let mut i: usize = 0;
        while i < keys.len()
            invariant
                i <= keys@.len(),
                out@.len() == i,
                forall|a: int| 0 <= a < keys@.len() ==> is_quad_key(e, (#[trigger] keys@[a])@),
                forall|a: int| 0 <= a < out@.len() ==> quad_wf(e, #[trigger] out@[a]) && keys@[a]@ == quad_bytes(e, out@[a]),
            decreases keys@.len() - i,
        {
            let ghost k = keys@[i as int]@;
            let ghost q = choose|q: EncodedQuad| quad_wf(e, q) && k == quad_bytes(e, q);
            assert(quad_wf(e, q) && keys@[i as int]@ == quad_bytes(e, q));
            proof {
                lemma_quad_roundtrip(e, q, Seq::empty());
                assert(k + Seq::<u8>::empty() == k);
            }
            match e.decode(keys[i].as_slice()) {
                Ok(quad) => {
                    out.push(quad);
                },
                Err(_) => {
                    assert(false);
                },
            }
            i = i + 1;
        }
        out
    }

    /// The encoded quads of the store.
    pub fn encoded_quads(&self) -> (r: Vec<EncodedQuad>)
        requires
            self.wf(),
        ensures
            forall|q: EncodedQuad| #[trigger] r@.contains(q) <==> self.quads().contains(q),
            in_key_order(self.quads(), r@),
    {
        let empty: [u8; 0] = [];
        let dkeys = self.dspo.keys_with_prefix(&empty);
        let gkeys = self.gspo.keys_with_prefix(&empty);
        proof {
            assert forall|a: int| 0 <= a < dkeys@.len() implies is_quad_key(QuadEncoding::Dspo, (#[trigger] dkeys@[a])@) by {
                assert(self.dspo.view().contains_key(dkeys@[a]@));
            }
            assert forall|a: int| 0 <= a < gkeys@.len() implies is_quad_key(QuadEncoding::Gspo, (#[trigger] gkeys@[a])@) by {
                assert(self.gspo.view().contains_key(gkeys@[a]@));
            }
        }
        let dq = Self::decode_keys(&dkeys, QuadEncoding::Dspo);
        let gq = Self::decode_keys(&gkeys, QuadEncoding::Gspo);
        let mut out = dq;
        let ghost d = out@;
        let ghost gv = gq@;
        let mut g = gq;
        out.append(&mut g);
        proof {
            assert forall|i: int, j: int| 0 <= i < j < out@.len() implies index_before(QuadEncoding::Dspo, QuadEncoding::Gspo, #[trigger] out@[i], #[trigger] out@[j]) by {
                if j < d.len() {
                    assert(out@[i] == d[i] && out@[j] == d[j]);
                    assert(lex_lt(dkeys@[i]@, dkeys@[j]@));
                } else if i < d.len() {
                    assert(out@[i] == d[i] && out@[j] == gv[j - d.len()]);
                } else {
                    assert(out@[i] == gv[i - d.len()] && out@[j] == gv[j - d.len()]);
                    assert(lex_lt(gkeys@[i - d.len()]@, gkeys@[j - d.len()]@));
                }
            }
            assert forall|q: EncodedQuad| #[trigger] out@.contains(q) <==> self.quads().contains(q) by {
                if out@.contains(q) {
                    let j = choose|j: int| 0 <= j < out@.len() && out@[j] == q;
                    if j < d.len() {
                        assert(d[j] == q);
                        assert(self.dspo.view().contains_key(dkeys@[j]@));
                    } else {
                        assert(gq@[j - d.len()] == q);
                        assert(self.gspo.view().contains_key(gkeys@[j - d.len()]@));
                    }
                }
                if self.quads().contains(q) {
                    if q.graph_name is DefaultGraph {
                        let k = quad_bytes(QuadEncoding::Dspo, q);
                        lemma_empty_prefix(empty@, k);
                        let a = choose|a: int| 0 <= a < dkeys@.len() && #[trigger] dkeys@[a]@ == k;
                        lemma_quad_bytes_injective(QuadEncoding::Dspo, d[a], q);
                        assert(out@[a] == q);
                    } else {
                        let k = quad_bytes(QuadEncoding::Gspo, q);
                        lemma_empty_prefix(empty@, k);
                        let a = choose|a: int| 0 <= a < gkeys@.len() && #[trigger] gkeys@[a]@ == k;
                        lemma_quad_bytes_injective(QuadEncoding::Gspo, gq@[a], q);
                        assert(out@[d.len() + a] == q);
                    }
                }
            }
        }
        out
    }

    /// The encoded quads of a graph.
    pub fn encoded_quads_for_graph(&self, graph_name: &EncodedTerm) -> (r: Vec<EncodedQuad>)
        requires
            self.wf(),
            term_wf(*graph_name),
        ensures
            forall|q: EncodedQuad| #[trigger] r@.contains(q) <==> self.quads().contains(q) && q.graph_name == *graph_name,
    {
        if graph_name.is_default_graph() {
            let empty: [u8; 0] = [];
            let keys = self.dspo.keys_with_prefix(&empty);
            proof {
                assert forall|a: int| 0 <= a < keys@.len() implies is_quad_key(QuadEncoding::Dspo, (#[trigger] keys@[a])@) by {
                    assert(self.dspo.view().contains_key(keys@[a]@));
                }
            }
            let out = Self::decode_keys(&keys, QuadEncoding::Dspo);
            proof {
                assert forall|q: EncodedQuad| #[trigger] out@.contains(q) <==> self.quads().contains(q) && q.graph_name == *graph_name by {
                    if out@.contains(q) {
                        let j = choose|j: int| 0 <= j < out@.len() && out@[j] == q;
                        assert(self.dspo.view().contains_key(keys@[j]@));
                    }
                    if self.quads().contains(q) && q.graph_name == *graph_name {
                        let k = quad_bytes(QuadEncoding::Dspo, q);
                        lemma_empty_prefix(empty@, k);
                        let a = choose|a: int| 0 <= a < keys@.len() && #[trigger] keys@[a]@ == k;
                        lemma_quad_bytes_injective(QuadEncoding::Dspo, out@[a], q);
                        assert(out@[a] == q);
                    }
                }
            }
            out
        } else {
            self.encoded_quads_for_named_graph(graph_name)
        }
    }

    /// Decodes encoded quads.
    pub(crate) fn decode_quads(&self, encoded: &Vec<EncodedQuad>) -> (r: Result<Vec<Quad>, StorageError>)
        requires
            self.wf(),
        ensures
            r is Ok <==> forall|a: int| 0 <= a < encoded@.len() ==> quad_decodable(#[trigger] encoded@[a], self.strings()),
            r matches Ok(v) ==> v@.len() == encoded@.len() && forall|a: int| 0 <= a < v@.len() ==> quad_decodes_to(encoded@[a], self.strings(), #[trigger] v@[a]),
    {
        let decoder = TermDecoder::new(self);
        let mut out: Vec<Quad> = Vec::new();
        let mut i: usize = 0;
        while i < encoded.len()
            invariant
                decoder.strs() == self.strings(),
                decoder.wf(),
                i <= encoded@.len(),
                out@.len() == i,
                forall|a: int| 0 <= a < i ==> quad_decodable(#[trigger] encoded@[a], self.strings()),
                forall|a: int| 0 <= a < out@.len() ==> quad_decodes_to(encoded@[a], self.strings(), #[trigger] out@[a]),
            decreases encoded@.len() - i,
        {
            match decoder.decode_quad(&encoded[i]) {
                Ok(q) => out.push(q),
                Err(e) => return Err(e),
            }
            i = i + 1;
        }
        Ok(out)
    }

    /// The quads of the store, decoded.
    pub fn dump_dataset(&self) -> (r: Result<Vec<Quad>, StorageError>)
        requires
            self.wf(),
        ensures
            r is Ok <==> forall|e: EncodedQuad| #[trigger] self.quads().contains(e) ==> quad_decodable(e, self.strings()),
            r matches Ok(v) ==> decoded_quads(self.quads(), self.strings(), v@),
            r matches Ok(v) ==> decoded_in_key_order(self.quads(), self.strings(), v@),
    {
        let encoded = self.encoded_quads();
        let r = self.decode_quads(&encoded);
        proof {
            if r is Ok {
                assert(in_index_order(self.quads(), encoded@, QuadEncoding::Dspo, QuadEncoding::Gspo));
            }
            lemma_decoded_quads(self.quads(), self.strings(), encoded@, r);
        }
        r
    }

    /// The quads of a graph, decoded.
    pub fn dump_graph(&self, from_graph_name: &GraphName) -> (r: Result<Vec<Quad>, StorageError>)
        requires
            self.wf(),
        ensures
            r is Ok <==> forall|e: EncodedQuad| #[trigger] self.quads().contains(e) && e.graph_name == encode_graph_name_spec(*from_graph_name)
                ==> quad_decodable(e, self.strings()),
            r matches Ok(v) ==> decoded_quads(
                self.quads().filter(|e: EncodedQuad| e.graph_name == encode_graph_name_spec(*from_graph_name)),
                self.strings(),
                v@,
            ),
    {
        let encoder = TermEncoder::new();
        let g = encoder.encode_graph_name(from_graph_name);
        proof {
            lemma_encode_graph_name_wf(*from_graph_name);
        }
        let encoded = self.encoded_quads_for_graph(&g);
        let r = self.decode_quads(&encoded);
        let ghost sel = self.quads().filter(|e: EncodedQuad| e.graph_name == encode_graph_name_spec(*from_graph_name));
        proof {
            assert forall|q: EncodedQuad| #[trigger] encoded@.contains(q) <==> sel.contains(q) by {}
            lemma_decoded_quads(sel, self.strings(), encoded@, r);
            assert forall|e: EncodedQuad| #[trigger] self.quads().contains(e) && e.graph_name == encode_graph_name_spec(*from_graph_name)
                ==> quad_decodable(e, self.strings()) <==> (sel.contains(e) ==> quad_decodable(e, self.strings())) by {}
        }
        r
    }

    /// The named graphs of the store, decoded.
    #[verifier::rlimit(40)]
    pub fn named_graphs(&self) -> (r: Result<Vec<NamedOrBlankNode>, StorageError>)
        requires
            self.wf(),
        ensures
            r is Ok <==> forall|g: EncodedTerm| #[trigger] self.named_graphs_view().contains(g) ==> decodable(g, self.strings())
                && (g is NamedNode || spec_is_blank_node(g)),
            r matches Ok(v) ==> (forall|i: int| 0 <= i < v@.len() ==> #[trigger] graph_decoded_from(self.named_graphs_view(), self.strings(), v@[i]))
                && (forall|g: EncodedTerm| #[trigger] self.named_graphs_view().contains(g) ==> graph_decoded_in(v@, self.strings(), g)),
    {
        let empty: [u8; 0] = [];
        let keys = self.graphs.keys_with_prefix(&empty);
        let decoder = TermDecoder::new(self);
        let mut out: Vec<NamedOrBlankNode> = Vec::new();
        let mut terms: Ghost<Seq<EncodedTerm>> = Ghost(Seq::empty());
        let mut i: usize = 0;
        while i < keys.len()
            invariant
                self.wf(),
                decoder.strs() == self.strings(),
                decoder.wf(),
                i <= keys@.len(),
                out@.len() == i,
                terms@.len() == i,
                forall|a: int| 0 <= a < keys@.len() ==> self.graphs.view().contains_key(#[trigger] keys@[a]@),
                forall|a: int| 0 <= a < i ==> graph_name_wf(#[trigger] terms@[a]) && keys@[a]@ == term_bytes(terms@[a])
                    && named_or_blank_decodes_to(terms@[a], self.strings(), out@[a]),
            decreases keys@.len() - i,
        {
            let ghost k = keys@[i as int]@;
            assert(self.graphs.view().contains_key(k));
            let ghost g = choose|g: EncodedTerm| graph_name_wf(g) && k == term_bytes(g);
            proof {
                lemma_term_roundtrip(g, Seq::empty());
                assert(k + Seq::<u8>::empty() == k);
            }
            let term = match decode_term(keys[i].as_slice()) {
                Ok(t) => t,
                Err(e) => {
                    assert(false);
                    return Err(e);
                },
            };
            match decoder.decode_named_or_blank_node(&term) {
                Ok(n) => {
                    out.push(n);
                    proof {
                        terms@ = terms@.push(g);
                    }
                },
                Err(e) => {
                    proof {
                        assert(self.named_graphs_view().contains(g));
                    }
                    return Err(e);
                },
            }
            i = i + 1;
        }
        proof {
            assert forall|j: int| 0 <= j < out@.len() implies #[trigger] graph_decoded_from(self.named_graphs_view(), self.strings(), out@[j]) by {
                assert(self.named_graphs_view().contains(terms@[j]));
            }
            assert forall|g: EncodedTerm| #[trigger] self.named_graphs_view().contains(g) implies graph_decoded_in(out@, self.strings(), g) by {
                let kk = term_bytes(g);
                lemma_empty_prefix(empty@, kk);
                let a = choose|a: int| 0 <= a < keys@.len() && #[trigger] keys@[a]@ == kk;
                lemma_term_bytes_injective(terms@[a], g);
                assert(named_or_blank_decodes_to(g, self.strings(), out@[a]));
            }
            assert forall|g: EncodedTerm| #[trigger] self.named_graphs_view().contains(g) implies decodable(g, self.strings())
                && (g is NamedNode || spec_is_blank_node(g)) by {
                let kk = term_bytes(g);
                lemma_empty_prefix(empty@, kk);
                let a = choose|a: int| 0 <= a < keys@.len() && #[trigger] keys@[a]@ == kk;
                lemma_term_bytes_injective(terms@[a], g);
            }
        }
        Ok(out)
    }
}

/// Whether the name decodes from one of the encoded graph names.
pub open spec fn graph_decoded_from(encoded: Set<EncodedTerm>, strs: Map<StrHash, Seq<char>>, n: NamedOrBlankNode) -> bool {
    exists|g: EncodedTerm| encoded.contains(g) && #[trigger] named_or_blank_decodes_to(g, strs, n)
}

/// Whether one of the decoded names decodes from the encoded graph name.
pub open spec fn graph_decoded_in(decoded: Seq<NamedOrBlankNode>, strs: Map<StrHash, Seq<char>>, g: EncodedTerm) -> bool {
    exists|i: int| 0 <= i < decoded.len() && #[trigger] named_or_blank_decodes_to(g, strs, decoded[i])
}

/// Whether the IRI or blank node is what the encoded term decodes to.
pub open spec fn named_or_blank_decodes_to(e: EncodedTerm, strs: Map<StrHash, Seq<char>>, n: NamedOrBlankNode) -> bool {
    &&& decodable(e, strs)
    &&& (e is NamedNode || spec_is_blank_node(e))
    &&& match n {
        NamedOrBlankNode::NamedNode(x) => decodes_to(e, strs, Term::NamedNode(x)),
        NamedOrBlankNode::BlankNode(x) => decodes_to(e, strs, Term::BlankNode(x)),
    }
}

/// After a quad is inserted, the store contains it.
pub proof fn law_insert_then_contains(before: RocksDbStore, after: RocksDbStore, q: Quad)
    requires
        after.quads() == before.quads().insert(encode_quad_spec(q)),
        after.strings() == before.strings().union_prefer_right(strings_map(quad_strings_spec(q))),
    ensures
        contains_quad(after, q),
{
    let pairs = quad_strings_spec(q);
    lemma_strings_map_keys(pairs);
    assert forall|i: int| 0 <= i < pairs.len() implies after.strings().contains_key((#[trigger] pairs[i]).0) by {
        assert(strings_map(pairs).contains_key(pairs[i].0));
    }
}

/// After a quad is removed, the store does not contain it, and it keeps
/// every other quad.
pub proof fn law_remove_then_not_contains(before: RocksDbStore, after: RocksDbStore, q: Quad, other: EncodedQuad)
    requires
        after.quads() == (if strings_present(before.strings(), quad_strings_spec(q)) {
            before.quads().remove(encode_quad_spec(q))
        } else {
            before.quads()
        }),
        after.strings() == before.strings(),
        other != encode_quad_spec(q),
    ensures
        !contains_quad(after, q),
        after.quads().contains(other) == before.quads().contains(other),
{
}

/// Inserting a quad the store does not hold and then removing it gives back
/// the quads the store held.
pub proof fn law_insert_remove_roundtrip(s0: RocksDbStore, s1: RocksDbStore, s2: RocksDbStore, q: Quad)
    requires
        !s0.quads().contains(encode_quad_spec(q)),
        s1.quads() == s0.quads().insert(encode_quad_spec(q)),
        s2.quads() == s1.quads().remove(encode_quad_spec(q)),
    ensures
        s2.quads() == s0.quads(),
{
    assert(s2.quads() =~= s0.quads());
}

/// Inserting a quad twice leaves the store as inserting it once.
pub proof fn law_insert_idempotent(s0: RocksDbStore, s1: RocksDbStore, s2: RocksDbStore, q: Quad)
    requires
        s1.quads() == s0.quads().insert(encode_quad_spec(q)),
        s2.quads() == s1.quads().insert(encode_quad_spec(q)),
    ensures
        s2.quads() == s1.quads(),
{
    assert(s2.quads() =~= s1.quads());
}

/// Inserting a quad the store does not hold adds one to its length.
pub proof fn law_insert_len(before: RocksDbStore, after: RocksDbStore, q: Quad)
    requires
        before.wf(),
        !before.quads().contains(encode_quad_spec(q)),
        after.quads() == before.quads().insert(encode_quad_spec(q)),
    ensures
        before.quads().finite(),
        after.quads().len() == before.quads().len() + 1,
{
    before.lemma_quads_finite();
}

/// Clearing a graph keeps the quads of the other graphs and removes those
/// of the graph.
pub proof fn law_clear_graph(before: RocksDbStore, after: RocksDbStore, g: GraphName, q: EncodedQuad)
    requires
        after.quads() == before.quads().filter(
            |e: EncodedQuad| e.graph_name != encode_graph_name_spec(g),
        ),
    ensures
        q.graph_name == encode_graph_name_spec(g) ==> !after.quads().contains(q),
        q.graph_name != encode_graph_name_spec(g) ==> after.quads().contains(q) == before.quads().contains(q),
{
}

/// Whether pairs of hash and string agree: equal hashes go with equal
/// strings.
pub open spec fn hashes_agree(pairs: Seq<(StrHash, Seq<char>)>) -> bool {
    forall|i: int, j: int|
        0 <= i < pairs.len() && 0 <= j < pairs.len() && (#[trigger] pairs[i]).0 == (#[trigger] pairs[j]).0
            ==> pairs[i].1 == pairs[j].1
}

proof fn lemma_strings_map_holds(pairs: Seq<(StrHash, Seq<char>)>)
    requires
        hashes_agree(pairs),
    ensures
        forall|i: int|
            0 <= i < pairs.len() ==> strings_map(pairs).contains_key((#[trigger] pairs[i]).0)
                && strings_map(pairs)[pairs[i].0] == pairs[i].1,
    decreases pairs.len(),
{
    if pairs.len() > 0 {
        let init = pairs.drop_last();
        assert(hashes_agree(init)) by {
            assert forall|i: int, j: int|
                0 <= i < init.len() && 0 <= j < init.len() && (#[trigger] init[i]).0 == (#[trigger] init[j]).0
                    implies init[i].1 == init[j].1 by {
                assert(init[i] == pairs[i] && init[j] == pairs[j]);
            }
        }
        lemma_strings_map_holds(init);
        assert forall|i: int| 0 <= i < pairs.len() implies strings_map(pairs).contains_key((#[trigger] pairs[i]).0)
            && strings_map(pairs)[pairs[i].0] == pairs[i].1 by {
            if i < pairs.len() - 1 {
                assert(init[i] == pairs[i]);
            }
        }
    }
}

/// A quad inserted in the store is read back from it: its encoding decodes,
/// with the store's strings, to the quad, where its literals are stored by
/// their text or in canonical form and its strings have distinct hashes.
pub proof fn law_insert_then_decode(before: RocksDbStore, after: RocksDbStore, q: Quad)
    requires
        crate::term_decoder::decodes_back_quad(q),
        hashes_agree(quad_strings_spec(q)),
        after.strings() == before.strings().union_prefer_right(strings_map(quad_strings_spec(q))),
    ensures
        quad_decodes_to(encode_quad_spec(q), after.strings(), q),
{
    let pairs = quad_strings_spec(q);
    lemma_strings_map_holds(pairs);
    assert(crate::term_decoder::holds_strings(after.strings(), pairs)) by {
        assert forall|i: int| 0 <= i < pairs.len() implies after.strings().contains_key((#[trigger] pairs[i]).0)
            && after.strings()[pairs[i].0] == pairs[i].1 by {
            assert(strings_map(pairs).contains_key(pairs[i].0));
        }
    }
    crate::term_decoder::lemma_decode_encode_quad(q, after.strings());
}

impl RocksDbStore {
    /// The quads of a well-formed store are finitely many.
    pub proof fn lemma_quads_finite(self)
        requires
            self.wf(),
        ensures
            self.quads().finite(),
    {
        let qd = Set::new(|q: EncodedQuad| quad_wf(QuadEncoding::Dspo, q) && has_quad(self.dspo, QuadEncoding::Dspo, q));
        let qn = Set::new(|q: EncodedQuad| quad_wf(QuadEncoding::Gspo, q) && has_quad(self.gspo, QuadEncoding::Gspo, q));
        self.dspo.lemma_dom_finite();
        self.gspo.lemma_dom_finite();
        lemma_tree_quads_len(self.dspo, QuadEncoding::Dspo, qd);
        lemma_tree_quads_len(self.gspo, QuadEncoding::Gspo, qn);
        assert(self.quads() =~= qd + qn);
    }
}

/// Whether the string store has every hash of the pairs.
pub open spec fn strings_present(strs: Map<StrHash, Seq<char>>, pairs: Seq<(StrHash, Seq<char>)>) -> bool {
    forall|i: int| 0 <= i < pairs.len() ==> strs.contains_key((#[trigger] pairs[i]).0)
}

proof fn lemma_strings_present_concat(
    strs: Map<StrHash, Seq<char>>,
    a: Seq<(StrHash, Seq<char>)>,
    b: Seq<(StrHash, Seq<char>)>,
)
    ensures
        strings_present(strs, a + b) == (strings_present(strs, a) && strings_present(strs, b)),
{
    if strings_present(strs, a + b) {
        assert forall|i: int| 0 <= i < a.len() implies strs.contains_key((#[trigger] a[i]).0) by {
            assert((a + b)[i] == a[i]);
        }
        assert forall|i: int| 0 <= i < b.len() implies strs.contains_key((#[trigger] b[i]).0) by {
            assert((a + b)[a.len() + i] == b[i]);
        }
    }
    if strings_present(strs, a) && strings_present(strs, b) {
        assert forall|i: int| 0 <= i < (a + b).len() implies strs.contains_key((#[trigger] (a + b)[i]).0) by {
            if i < a.len() {
                assert((a + b)[i] == a[i]);
            } else {
                assert((a + b)[i] == b[i - a.len()]);
            }
        }
    }
}

impl RocksDbStore {
    /// The hash of a string, if the store has the string.
    fn get_encoded_str(&self, value: &str) -> (r: Option<StrHash>)
        requires
            self.wf(),
        ensures
            r == (if self.strings().contains_key(hash_of(value@)) {
                Some(hash_of(value@))
            } else {
                None::<StrHash>
            }),
    {
        let h = StrHash::new(value);
        match self.contains_str(&h) {
            Ok(true) => Some(h),
            _ => None,
        }
    }

    /// The inline form of a short string, or the hash of a long one that the
    /// store has.
    fn small_or_lookup(&self, value: &str) -> (r: Option<Result<SmallString, StrHash>>)
        requires
            self.wf(),
        ensures
            fits_small(value@) ==> r == Some(Ok::<SmallString, StrHash>(small_of(value@))),
            !fits_small(value@) ==> r == (if self.strings().contains_key(hash_of(value@)) {
                Some(Err::<SmallString, StrHash>(hash_of(value@)))
            } else {
                None
            }),
    {
        match small_or_hash(value) {
            Ok(s) => Some(Ok(s)),
            Err(_) => match self.get_encoded_str(value) {
                Some(h) => Some(Err(h)),
                None => None,
            },
        }
    }

    /// The encoding of a literal, where the store has every string that the
    /// encoding keeps by its hash.
    pub fn get_encoded_literal(&self, literal: &Literal) -> (r: Result<Option<EncodedTerm>, StorageError>)
        requires
            self.wf(),
        ensures
            r == Ok::<Option<EncodedTerm>, StorageError>(if strings_present(self.strings(), literal_strings_spec(*literal)) {
                Some(encode_literal_term_spec(*literal))
            } else {
                None
            }),
    {
        let value = literal.value();
        let datatype = literal.datatype();
        let language = literal.language();
        let dt = chars_of(datatype);
        let ghost strs = self.strings();
        let ghost ls = literal_strings_spec(*literal);
        let ghost v = value@;
        let ghost d = datatype@;
        let ghost e = encode_literal_term_spec(*literal);
        assert(e == encode_literal_spec(v, d, literal.language_spec()));
        proof {
            reveal_strlit("http://www.w3.org/2001/XMLSchema#string");
            reveal_strlit("http://www.w3.org/2001/XMLSchema#boolean");
            assert(XSD_STRING@ != crate::term_encoder::XSD_BOOLEAN@) by {
                assert(XSD_STRING@[33] != crate::term_encoder::XSD_BOOLEAN@[33]);
            }
        }
        let native = if chars_are(&dt, RDF_LANG_STRING) {
            match language {
                Some(language) => {
                    let ghost lg = language@;
                    let vs = match self.small_or_lookup(value) {
                        Some(x) => x,
                        None => {
                            proof {
                                assert(ls[0].0 == hash_of(v));
                            }
                            return Ok(None);
                        },
                    };
                    let ls2 = match self.small_or_lookup(language) {
                        Some(x) => x,
                        None => {
                            proof {
                                if fits_small(v) {
                                    assert(ls[0].0 == hash_of(lg));
                                } else {
                                    assert(ls[1].0 == hash_of(lg));
                                }
                            }
                            return Ok(None);
                        },
                    };
                    Some(
                        match (vs, ls2) {
                            (Ok(value), Ok(language)) => EncodedTerm::SmallSmallLangStringLiteral { value, language },
                            (Ok(value), Err(language_id)) => EncodedTerm::SmallBigLangStringLiteral { value, language_id },
                            (Err(value_id), Ok(language)) => EncodedTerm::BigSmallLangStringLiteral { value_id, language },
                            (Err(value_id), Err(language_id)) => EncodedTerm::BigBigLangStringLiteral { value_id, language_id },
                        },
                    )
                },
                None => None,
            }
        } else if chars_are(&dt, XSD_STRING) {
            match self.small_or_lookup(value) {
                Some(Ok(s)) => Some(EncodedTerm::SmallStringLiteral(s)),
                Some(Err(h)) => Some(EncodedTerm::BigStringLiteral { value_id: h }),
                None => {
                    proof {
                        assert(ls[0].0 == hash_of(v));
                    }
                    return Ok(None);
                },
            }
        } else {
            TermEncoder::new().native_encoding(value, datatype, None)
        };
        match native {
            Some(term) => Ok(Some(term)),
            None => {
                let vs = match self.small_or_lookup(value) {
                    Some(x) => x,
                    None => {
                        proof {
                            assert(ls[0].0 == hash_of(v));
                        }
                        return Ok(None);
                    },
                };
                match self.get_encoded_str(datatype) {
                    Some(datatype_id) => match vs {
                        Ok(value) => Ok(Some(EncodedTerm::SmallTypedLiteral { value, datatype_id })),
                        Err(value_id) => Ok(Some(EncodedTerm::BigTypedLiteral { value_id, datatype_id })),
                    },
                    None => {
                        proof {
                            if fits_small(v) {
                                assert(ls[0].0 == hash_of(d));
                            } else {
                                assert(ls[1].0 == hash_of(d));
                            }
                        }
                        Ok(None)
                    },
                }
            },
        }
    }
}

/// Whether the store holds the quad and has its strings.
pub open spec fn contains_quad(s: RocksDbStore, q: Quad) -> bool {
    strings_present(s.strings(), quad_strings_spec(q)) && s.quads().contains(encode_quad_spec(q))
}

/// The map of pairs has the hash of each pair.
pub proof fn lemma_strings_map_keys(pairs: Seq<(StrHash, Seq<char>)>)
    ensures
        forall|i: int| 0 <= i < pairs.len() ==> strings_map(pairs).contains_key((#[trigger] pairs[i]).0),
    decreases pairs.len(),
{
    if pairs.len() > 0 {
        lemma_strings_map_keys(pairs.drop_last());
        assert forall|i: int| 0 <= i < pairs.len() implies strings_map(pairs).contains_key((#[trigger] pairs[i]).0) by {
            if i < pairs.len() - 1 {
                assert(pairs.drop_last()[i] == pairs[i]);
            }
        }
    }
}

impl RocksDbStore {
    pub(crate) fn get_encoded_named_node(&self, node: &NamedNode) -> (r: Option<EncodedTerm>)
        requires
            self.wf(),
        ensures
            r == (if strings_present(self.strings(), hashed(node.iri@)) {
                Some(encode_named_node_spec(node.iri@))
            } else {
                None::<EncodedTerm>
            }),
    {
        proof {
            assert(hashed(node.iri@)[0].0 == hash_of(node.iri@));
        }
        match self.get_encoded_str(node.as_str()) {
            Some(iri_id) => Some(EncodedTerm::NamedNode { iri_id }),
            None => None,
        }
    }

    fn get_encoded_blank_node(&self, node: &BlankNode) -> (r: Option<EncodedTerm>)
        requires
            self.wf(),
        ensures
            r == (if strings_present(self.strings(), blank_node_strings(node.id@)) {
                Some(encode_blank_node_spec(node.id@))
            } else {
                None::<EncodedTerm>
            }),
    {
        let encoded = TermEncoder::new().encode_blank_node(node);
        proof {
            assert(hashed(node.id@)[0].0 == hash_of(node.id@));
        }
        if let EncodedTerm::BigBlankNode { .. } = encoded {
            match self.get_encoded_str(node.as_str()) {
                Some(_) => Some(encoded),
                None => None,
            }
        } else {
            Some(encoded)
        }
    }

    /// The encoding of a term, where the store has every string that the
    /// encoding keeps by its hash.
    pub fn get_encoded_term(&self, term: &Term) -> (r: Result<Option<EncodedTerm>, StorageError>)
        requires
            self.wf(),
        ensures
            r == Ok::<Option<EncodedTerm>, StorageError>(if strings_present(self.strings(), term_strings_spec(*term)) {
                Some(encode_term_spec(*term))
            } else {
                None
            }),
        decreases term,
    {
        match term {
            Term::NamedNode(n) => Ok(self.get_encoded_named_node(n)),
            Term::BlankNode(b) => Ok(self.get_encoded_blank_node(b)),
            Term::Literal(l) => self.get_encoded_literal(l),
            Term::Triple(t) => {
                let ghost a = term_strings_spec(t.subject);
                let ghost p = hashed(t.predicate.iri@);
                let ghost c = term_strings_spec(t.object);
                proof {
                    assert(term_strings_spec(*term) == a + p + c);
                    lemma_strings_present_concat(self.strings(), a + p, c);
                    lemma_strings_present_concat(self.strings(), a, p);
                }
                let subject = match self.get_encoded_term(&t.subject) {
                    Ok(Some(s)) => s,
                    _ => return Ok(None),
                };
                let predicate = match self.get_encoded_named_node(&t.predicate) {
                    Some(p) => p,
                    None => return Ok(None),
                };
                let object = match self.get_encoded_term(&t.object) {
                    Ok(Some(o)) => o,
                    _ => return Ok(None),
                };
                Ok(Some(EncodedTerm::Triple(Box::new(EncodedTriple { subject, predicate, object }))))
            },
        }
    }

    /// The encoding of a graph name, where the store has its strings.
    pub fn get_encoded_graph_name(&self, name: &GraphName) -> (r: Result<Option<EncodedTerm>, StorageError>)
        requires
            self.wf(),
        ensures
            r == Ok::<Option<EncodedTerm>, StorageError>(if strings_present(self.strings(), graph_name_strings_spec(*name)) {
                Some(encode_graph_name_spec(*name))
            } else {
                None
            }),
    {
        match name {
            GraphName::NamedNode(n) => Ok(self.get_encoded_named_node(n)),
            GraphName::BlankNode(b) => Ok(self.get_encoded_blank_node(b)),
            GraphName::DefaultGraph => Ok(Some(EncodedTerm::DefaultGraph)),
        }
    }

    /// The encoding of a quad, where the store has every string that the
    /// encoding keeps by its hash.
    pub fn get_encoded_quad(&self, quad: &Quad) -> (r: Result<Option<EncodedQuad>, StorageError>)
        requires
            self.wf(),
        ensures
            r == Ok::<Option<EncodedQuad>, StorageError>(if strings_present(self.strings(), quad_strings_spec(*quad)) {
                Some(encode_quad_spec(*quad))
            } else {
                None
            }),
    {
        let ghost a = term_strings_spec(quad.subject);
        let ghost p = hashed(quad.predicate.iri@);
        let ghost c = term_strings_spec(quad.object);
        let ghost g = graph_name_strings_spec(quad.graph_name);
        proof {
            assert(quad_strings_spec(*quad) == a + p + c + g);
            lemma_strings_present_concat(self.strings(), a + p + c, g);
            lemma_strings_present_concat(self.strings(), a + p, c);
            lemma_strings_present_concat(self.strings(), a, p);
        }
        let subject = match self.get_encoded_term(&quad.subject) {
            Ok(Some(s)) => s,
            _ => return Ok(None),
        };
        let predicate = match self.get_encoded_named_node(&quad.predicate) {
            Some(p) => p,
            None => return Ok(None),
        };
        let object = match self.get_encoded_term(&quad.object) {
            Ok(Some(o)) => o,
            _ => return Ok(None),
        };
        let graph_name = match self.get_encoded_graph_name(&quad.graph_name) {
            Ok(Some(g)) => g,
            _ => return Ok(None),
        };
        Ok(Some(EncodedQuad { subject, predicate, object, graph_name }))
    }
}

/// The strings of a blank node identifier that its encoding keeps by hash.
pub open spec fn blank_node_strings(id: Seq<char>) -> Seq<(StrHash, Seq<char>)> {
    if encode_blank_node_spec(id) is BigBlankNode {
        hashed(id)
    } else {
        Seq::empty()
    }
}

impl RocksDbStore {
    /// The quads of the store in one index whose first terms, in the
    /// index's order, are the prefix.
    pub(crate) fn scan_pattern_index(&self, e: QuadEncoding, prefix: &Vec<EncodedTerm>) -> (r: Vec<EncodedQuad>)
        requires
            self.wf(),
            crate::binary_encoder::terms_wf(prefix@),
            prefix@.len() <= crate::binary_encoder::encoding_arity(e),
        ensures
            forall|q: EncodedQuad| #[trigger] r@.contains(q) <==> self.quads().contains(q)
                && ((q.graph_name is DefaultGraph) <==> crate::binary_encoder::is_default_graph_encoding(e))
                && crate::pattern::terms_match(quad_terms(e, q), prefix@),
            forall|i: int, j: int| 0 <= i < j < r@.len() ==> lex_lt(quad_bytes(e, #[trigger] r@[i]), quad_bytes(e, #[trigger] r@[j])),
    {
        let tree = match e {
            QuadEncoding::Spog => &self.spog,
            QuadEncoding::Posg => &self.posg,
            QuadEncoding::Ospg => &self.ospg,
            QuadEncoding::Gspo => &self.gspo,
            QuadEncoding::Gpos => &self.gpos,
            QuadEncoding::Gosp => &self.gosp,
            QuadEncoding::Dspo => &self.dspo,
            QuadEncoding::Dpos => &self.dpos,
            QuadEncoding::Dosp => &self.dosp,
        };
        proof {
            assert(keys_are_quads(*tree, e)) by {
                if e is Dspo || e is Gspo {
                    assert forall|k: Seq<u8>| #[trigger] tree.view().contains_key(k) implies is_quad_key(e, k) by {}
                }
            }
        }
        let r = crate::pattern::scan_index(tree, e, prefix);
        proof {
            assert forall|q: EncodedQuad| #[trigger] r@.contains(q) <==> self.quads().contains(q)
                && ((q.graph_name is DefaultGraph) <==> crate::binary_encoder::is_default_graph_encoding(e))
                && crate::pattern::terms_match(quad_terms(e, q), prefix@) by {
                let hd = has_quad(self.dspo, QuadEncoding::Dspo, q);
                let hg = has_quad(self.gspo, QuadEncoding::Gspo, q);
                assert(quad_wf(e, q) <==> storable(q) && ((q.graph_name is DefaultGraph) <==> crate::binary_encoder::is_default_graph_encoding(e)));
            }
        }
        r
    }
}

/// The graph names of the quads that are in a named graph.
pub open spec fn quad_graphs(quads: Set<EncodedQuad>) -> Set<EncodedTerm> {
    Set::new(|g: EncodedTerm| exists|q: EncodedQuad| #[trigger] quads.contains(q) && !(q.graph_name is DefaultGraph) && q.graph_name == g)
}

/// The key under which the default column family records the version.
pub open spec fn version_key() -> Seq<u8> {
    encode_utf8("oxversion"@)
}

/// Whether every key of the tree is the key of a quad in the given order.
pub open spec fn keys_are_quads(t: Tree, e: QuadEncoding) -> bool {
    forall|k: Seq<u8>| #[trigger] t.view().contains_key(k) ==> is_quad_key(e, k)
}

proof fn lemma_keys_insert(old_t: Tree, new_t: Tree, e: QuadEncoding, q: EncodedQuad)
    requires
        keys_are_quads(old_t, e),
        new_t.view() == old_t.view().insert(quad_bytes(e, q), Seq::<u8>::empty()),
        quad_wf(e, q),
    ensures
        keys_are_quads(new_t, e),
{
    assert forall|k: Seq<u8>| #[trigger] new_t.view().contains_key(k) implies is_quad_key(e, k) by {
        if k != quad_bytes(e, q) {
            assert(old_t.view().contains_key(k));
        }
    }
}

proof fn lemma_keys_remove(old_t: Tree, new_t: Tree, e: QuadEncoding, k0: Seq<u8>)
    requires
        keys_are_quads(old_t, e),
        new_t.view() == old_t.view().remove(k0),
    ensures
        keys_are_quads(new_t, e),
{
    assert forall|k: Seq<u8>| #[trigger] new_t.view().contains_key(k) implies is_quad_key(e, k) by {
        assert(old_t.view().contains_key(k));
    }
}

/// Inserting the key of a quad adds exactly that quad to those the tree holds.
proof fn lemma_insert_key(old_t: Tree, new_t: Tree, e: QuadEncoding, q: EncodedQuad, x: EncodedQuad)
    requires
        new_t.view() == old_t.view().insert(quad_bytes(e, q), Seq::<u8>::empty()),
        quad_wf(e, q),
        quad_wf(e, x),
    ensures
        has_quad(new_t, e, x) == (has_quad(old_t, e, x) || x == q),
{
    if quad_bytes(e, x) == quad_bytes(e, q) {
        lemma_quad_bytes_injective(e, x, q);
    }
}

/// Removing the key of a quad removes exactly that quad from those the tree holds.
proof fn lemma_remove_key(old_t: Tree, new_t: Tree, e: QuadEncoding, q: EncodedQuad, x: EncodedQuad)
    requires
        new_t.view() == old_t.view().remove(quad_bytes(e, q)),
        quad_wf(e, q),
        quad_wf(e, x),
    ensures
        has_quad(new_t, e, x) == (has_quad(old_t, e, x) && x != q),
{
    if quad_bytes(e, x) == quad_bytes(e, q) {
        lemma_quad_bytes_injective(e, x, q);
    }
}

} // verus!
