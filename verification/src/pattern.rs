//! Quad pattern queries: each pattern is answered by scanning, in the index
//! whose order starts with the bound terms, the keys that start with them.

use vstd::prelude::*;
use crate::backend::{is_prefix, lex_lt, Tree};
use crate::binary_encoder::{
    lemma_term_roundtrip, quad_bytes, quad_terms, quad_wf, terms_bytes, terms_wf, write_term,
    QuadEncoding, encoding_arity,
};
use crate::error::StorageError;
use crate::term_encoder::{
    encode_graph_name_spec, encode_named_node_spec, encode_term_spec, graph_name_strings_spec,
    hashed, term_strings_spec,
};
use crate::model::{GraphName, NamedNode, Quad, Term};
use crate::numeric_encoder::{term_wf, EncodedQuad, EncodedTerm};
use crate::store::{
    strings_present, decoded_quads, decoded_in_index_order, in_index_order, index_before, has_quad, is_quad_key, keys_are_quads, quad_decodable, storable, RocksDbStore,
};

verus! {

/// Whether the first terms of `ts` are those of `prefix`.
pub open spec fn terms_match(ts: Seq<EncodedTerm>, prefix: Seq<EncodedTerm>) -> bool {
    prefix.len() <= ts.len() && forall|i: int| 0 <= i < prefix.len() ==> #[trigger] ts[i] == prefix[i]
}

/// Whether a quad matches a pattern: each bound component is equal.
pub open spec fn matches_pattern(
    q: EncodedQuad,
    s: Option<EncodedTerm>,
    p: Option<EncodedTerm>,
    o: Option<EncodedTerm>,
    g: Option<EncodedTerm>,
) -> bool {
    &&& (s matches Some(x) ==> q.subject == x)
    &&& (p matches Some(x) ==> q.predicate == x)
    &&& (o matches Some(x) ==> q.object == x)
    &&& (g matches Some(x) ==> q.graph_name == x)
}

/// The serializations of terms start with those of a prefix of the terms,
/// and only with those.
pub proof fn lemma_terms_prefix(ts: Seq<EncodedTerm>, us: Seq<EncodedTerm>)
    requires
        terms_wf(ts),
        terms_wf(us),
        ts.len() <= us.len(),
    ensures
        is_prefix(terms_bytes(ts), terms_bytes(us)) <==> terms_match(us, ts),
    decreases ts.len(),
{
    if ts.len() == 0 {
        assert(terms_bytes(us).take(0) =~= terms_bytes(ts));
    } else {
        let t0 = ts[0];
        let u0 = us[0];
        let a = terms_bytes(ts.drop_first());
        let b = terms_bytes(us.drop_first());
        assert(terms_bytes(ts) == crate::binary_encoder::term_bytes(t0) + a);
        assert(terms_bytes(us) == crate::binary_encoder::term_bytes(u0) + b);
        assert(terms_wf(ts.drop_first())) by {
            assert forall|i: int| 0 <= i < ts.drop_first().len() implies term_wf(#[trigger] ts.drop_first()[i])
                && !(ts.drop_first()[i] is DefaultGraph) by {
                assert(ts.drop_first()[i] == ts[i + 1]);
            }
        }
        assert(terms_wf(us.drop_first())) by {
            assert forall|i: int| 0 <= i < us.drop_first().len() implies term_wf(#[trigger] us.drop_first()[i])
                && !(us.drop_first()[i] is DefaultGraph) by {
                assert(us.drop_first()[i] == us[i + 1]);
            }
        }
        assert(term_wf(ts[0]) && !(ts[0] is DefaultGraph));
        assert(term_wf(us[0]) && !(us[0] is DefaultGraph));
        lemma_terms_prefix(ts.drop_first(), us.drop_first());
        let tb = crate::binary_encoder::term_bytes(t0);
        let ub = crate::binary_encoder::term_bytes(u0);
        if terms_match(us, ts) {
            assert(t0 == u0);
            assert(terms_match(us.drop_first(), ts.drop_first())) by {
                assert forall|i: int| 0 <= i < ts.drop_first().len() implies #[trigger] us.drop_first()[i] == ts.drop_first()[i] by {
                    assert(us[i + 1] == ts[i + 1]);
                }
            }
            assert(b.take(a.len() as int) == a);
            assert((tb + b).take((tb + a).len() as int) =~= tb + a);
        }
        if is_prefix(terms_bytes(ts), terms_bytes(us)) {
            let n = (tb + a).len() as int;
            let k = ub + b;
            let rest = k.skip(n);
            assert(k.take(n) == tb + a);
            assert(k =~= k.take(n) + k.skip(n));
            assert(k =~= tb + (a + rest));
            lemma_term_roundtrip(t0, a + rest);
            lemma_term_roundtrip(u0, b);
            assert(t0 == u0);
            assert(b =~= a + rest);
            assert(b.take(a.len() as int) =~= a);
            assert forall|i: int| 0 <= i < ts.len() implies #[trigger] us[i] == ts[i] by {
                if i > 0 {
                    assert(us.drop_first()[i - 1] == ts.drop_first()[i - 1]);
                }
            }
        }
    }
}

/// The serializations of terms, one after the other.
fn terms_key(ts: &Vec<EncodedTerm>) -> (r: Vec<u8>)
    ensures
        r@ == terms_bytes(ts@),
{
    let mut out: Vec<u8> = Vec::new();
    let mut j: usize = 0;
    assert(ts@.skip(0) =~= ts@);
    assert(out@ + terms_bytes(ts@) =~= terms_bytes(ts@));
    while j < ts.len()
        invariant
            j <= ts@.len(),
            out@ + terms_bytes(ts@.skip(j as int)) == terms_bytes(ts@),
        decreases ts@.len() - j,
    {
        proof {
            assert(ts@.skip(j as int)[0] == ts@[j as int]);
            assert(ts@.skip(j as int).drop_first() =~= ts@.skip(j + 1));
        }
        write_term(&mut out, &ts[j]);
        j = j + 1;
    }
    proof {
        assert(ts@.skip(j as int) =~= Seq::<EncodedTerm>::empty());
        assert(out@ + Seq::<u8>::empty() =~= out@);
    }
    out
}

/// The quads of a tree whose first terms, in the tree's order, are the prefix.
pub(crate) fn scan_index(tree: &Tree, e: QuadEncoding, prefix: &Vec<EncodedTerm>) -> (r: Vec<EncodedQuad>)
    requires
        tree.wf(),
        keys_are_quads(*tree, e),
        terms_wf(prefix@),
        prefix@.len() <= encoding_arity(e),
    ensures
        forall|q: EncodedQuad| #[trigger] r@.contains(q) <==> quad_wf(e, q) && has_quad(*tree, e, q) && terms_match(quad_terms(e, q), prefix@),
        forall|i: int, j: int| 0 <= i < j < r@.len() ==> lex_lt(quad_bytes(e, #[trigger] r@[i]), quad_bytes(e, #[trigger] r@[j])),
{
    let bytes = terms_key(prefix);
    let keys = tree.keys_with_prefix(bytes.as_slice());
    proof {
        assert forall|a: int| 0 <= a < keys@.len() implies is_quad_key(e, (#[trigger] keys@[a])@) by {
            assert(tree.view().contains_key(keys@[a]@));
        }
    }
    let out = RocksDbStore::decode_keys(&keys, e);
    proof {
        assert forall|i: int, j: int| 0 <= i < j < out@.len() implies lex_lt(quad_bytes(e, #[trigger] out@[i]), quad_bytes(e, #[trigger] out@[j])) by {
            assert(lex_lt(keys@[i]@, keys@[j]@));
        }
        assert forall|q: EncodedQuad| #[trigger] out@.contains(q) <==> quad_wf(e, q) && has_quad(*tree, e, q) && terms_match(quad_terms(e, q), prefix@) by {
            if quad_wf(e, q) {
                assert(terms_wf(quad_terms(e, q)));
                lemma_terms_prefix(prefix@, quad_terms(e, q));
            }
            if out@.contains(q) {
                let a = choose|a: int| 0 <= a < out@.len() && out@[a] == q;
                assert(quad_wf(e, out@[a]) && keys@[a]@ == quad_bytes(e, out@[a]));
                assert(tree.view().contains_key(keys@[a]@));
            }
            if quad_wf(e, q) && has_quad(*tree, e, q) && terms_match(quad_terms(e, q), prefix@) {
                let k = quad_bytes(e, q);
                let a = choose|a: int| 0 <= a < keys@.len() && #[trigger] keys@[a]@ == k;
                crate::store::lemma_quad_bytes_injective(e, out@[a], q);
                assert(out@[a] == q);
            }
        }
    }
    out
}

/// The bound term, as a value.
pub open spec fn opt_term(t: Option<&EncodedTerm>) -> Option<EncodedTerm> {
    match t {
        Some(x) => Some(*x),
        None => None,
    }
}

/// Whether a bound term can stand in a key.
pub open spec fn bound_wf(t: Option<&EncodedTerm>) -> bool {
    t matches Some(x) ==> term_wf(*x) && !(x is DefaultGraph)
}

fn push_bound(v: &mut Vec<EncodedTerm>, t: &EncodedTerm)
    ensures
        final(v)@ == old(v)@.push(*t),
{
    v.push(t.duplicate());
}

/// The index that holds the default graph's quads for a pattern whose
/// subject, predicate and object are bound or not.
pub open spec fn default_index_of(s: bool, p: bool, o: bool) -> QuadEncoding {
    if s && !p && o {
        QuadEncoding::Dosp
    } else if s {
        QuadEncoding::Dspo
    } else if p {
        QuadEncoding::Dpos
    } else if o {
        QuadEncoding::Dosp
    } else {
        QuadEncoding::Dspo
    }
}

/// The index that holds the quads of named graphs for a pattern whose
/// subject, predicate, object and graph name are bound or not.
pub open spec fn named_index_of(s: bool, p: bool, o: bool, g: bool) -> QuadEncoding {
    if g {
        if s && !p && o {
            QuadEncoding::Gosp
        } else if s {
            QuadEncoding::Gspo
        } else if p {
            QuadEncoding::Gpos
        } else if o {
            QuadEncoding::Gosp
        } else {
            QuadEncoding::Gspo
        }
    } else {
        if s && !p && o {
            QuadEncoding::Ospg
        } else if s {
            QuadEncoding::Spog
        } else if p {
            QuadEncoding::Posg
        } else if o {
            QuadEncoding::Ospg
        } else {
            QuadEncoding::Gspo
        }
    }
}

/// The index of the default graph, and the prefix of its keys, for the bound
/// subject, predicate and object.
fn default_index(s: Option<&EncodedTerm>, p: Option<&EncodedTerm>, o: Option<&EncodedTerm>) -> (r: (QuadEncoding, Vec<EncodedTerm>))
    requires
        bound_wf(s),
        bound_wf(p),
        bound_wf(o),
    ensures
        r.0 == default_index_of(s is Some, p is Some, o is Some),
        crate::binary_encoder::is_default_graph_encoding(r.0),
        terms_wf(r.1@),
        r.1@.len() <= encoding_arity(r.0),
        forall|q: EncodedQuad|
            #[trigger] terms_match(quad_terms(r.0, q), r.1@) <==> matches_pattern(q, opt_term(s), opt_term(p), opt_term(o), None),
{
    let mut prefix: Vec<EncodedTerm> = Vec::new();
    let e = match (s, p, o) {
        (Some(s), Some(p), Some(o)) => {
            push_bound(&mut prefix, s);
            push_bound(&mut prefix, p);
            push_bound(&mut prefix, o);
            QuadEncoding::Dspo
        },
        (Some(s), Some(p), None) => {
            push_bound(&mut prefix, s);
            push_bound(&mut prefix, p);
            QuadEncoding::Dspo
        },
        (Some(s), None, Some(o)) => {
            push_bound(&mut prefix, o);
            push_bound(&mut prefix, s);
            QuadEncoding::Dosp
        },
        (Some(s), None, None) => {
            push_bound(&mut prefix, s);
            QuadEncoding::Dspo
        },
        (None, Some(p), Some(o)) => {
            push_bound(&mut prefix, p);
            push_bound(&mut prefix, o);
            QuadEncoding::Dpos
        },
        (None, Some(p), None) => {
            push_bound(&mut prefix, p);
            QuadEncoding::Dpos
        },
        (None, None, Some(o)) => {
            push_bound(&mut prefix, o);
            QuadEncoding::Dosp
        },
        (None, None, None) => QuadEncoding::Dspo,
    };
    proof {
        assert forall|q: EncodedQuad|
            #[trigger] terms_match(quad_terms(e, q), prefix@) <==> matches_pattern(q, opt_term(s), opt_term(p), opt_term(o), None) by {
            let ts = quad_terms(e, q);
            if prefix@.len() > 0 {
                let a = ts[0];
            }
            if prefix@.len() > 1 {
                let b = ts[1];
            }
            if prefix@.len() > 2 {
                let c = ts[2];
            }
        }
    }
    (e, prefix)
}

/// The index of the named graphs, and the prefix of its keys, for the bound
/// subject, predicate, object and graph name.
fn named_index(s: Option<&EncodedTerm>, p: Option<&EncodedTerm>, o: Option<&EncodedTerm>, g: Option<&EncodedTerm>) -> (r: (QuadEncoding, Vec<EncodedTerm>))
    requires
        bound_wf(s),
        bound_wf(p),
        bound_wf(o),
        bound_wf(g),
    ensures
        r.0 == named_index_of(s is Some, p is Some, o is Some, g is Some),
        !crate::binary_encoder::is_default_graph_encoding(r.0),
        terms_wf(r.1@),
        r.1@.len() <= encoding_arity(r.0),
        forall|q: EncodedQuad|
            #[trigger] terms_match(quad_terms(r.0, q), r.1@) <==> matches_pattern(q, opt_term(s), opt_term(p), opt_term(o), opt_term(g)),
{
    let mut prefix: Vec<EncodedTerm> = Vec::new();
    let e = match g {
        Some(g) => {
            push_bound(&mut prefix, g);
            match (s, p, o) {
                (Some(s), Some(p), Some(o)) => {
                    push_bound(&mut prefix, s);
                    push_bound(&mut prefix, p);
                    push_bound(&mut prefix, o);
                    QuadEncoding::Gspo
                },
                (Some(s), Some(p), None) => {
                    push_bound(&mut prefix, s);
                    push_bound(&mut prefix, p);
                    QuadEncoding::Gspo
                },
                (Some(s), None, Some(o)) => {
                    push_bound(&mut prefix, o);
                    push_bound(&mut prefix, s);
                    QuadEncoding::Gosp
                },
                (Some(s), None, None) => {
                    push_bound(&mut prefix, s);
                    QuadEncoding::Gspo
                },
                (None, Some(p), Some(o)) => {
                    push_bound(&mut prefix, p);
                    push_bound(&mut prefix, o);
                    QuadEncoding::Gpos
                },
                (None, Some(p), None) => {
                    push_bound(&mut prefix, p);
                    QuadEncoding::Gpos
                },
                (None, None, Some(o)) => {
                    push_bound(&mut prefix, o);
                    QuadEncoding::Gosp
                },
                (None, None, None) => QuadEncoding::Gspo,
            }
        },
        None => match (s, p, o) {
            (Some(s), Some(p), Some(o)) => {
                push_bound(&mut prefix, s);
                push_bound(&mut prefix, p);
                push_bound(&mut prefix, o);
                QuadEncoding::Spog
            },
            (Some(s), Some(p), None) => {
                push_bound(&mut prefix, s);
                push_bound(&mut prefix, p);
                QuadEncoding::Spog
            },
            (Some(s), None, Some(o)) => {
                push_bound(&mut prefix, o);
                push_bound(&mut prefix, s);
                QuadEncoding::Ospg
            },
            (Some(s), None, None) => {
                push_bound(&mut prefix, s);
                QuadEncoding::Spog
            },
            (None, Some(p), Some(o)) => {
                push_bound(&mut prefix, p);
                push_bound(&mut prefix, o);
                QuadEncoding::Posg
            },
            (None, Some(p), None) => {
                push_bound(&mut prefix, p);
                QuadEncoding::Posg
            },
            (None, None, Some(o)) => {
                push_bound(&mut prefix, o);
                QuadEncoding::Ospg
            },
            (None, None, None) => QuadEncoding::Gspo,
        },
    };
    proof {
        assert forall|q: EncodedQuad|
            #[trigger] terms_match(quad_terms(e, q), prefix@) <==> matches_pattern(q, opt_term(s), opt_term(p), opt_term(o), opt_term(g)) by {
            let ts = quad_terms(e, q);
            if prefix@.len() > 0 {
                let a = ts[0];
            }
            if prefix@.len() > 1 {
                let b = ts[1];
            }
            if prefix@.len() > 2 {
                let c = ts[2];
            }
            if prefix@.len() > 3 {
                let d = ts[3];
            }
        }
    }
    (e, prefix)
}

impl RocksDbStore {
    /// The encoded quads that match a pattern: those whose bound components
    /// are the given terms.
    pub fn encoded_quads_for_pattern(
        &self,
        subject: Option<&EncodedTerm>,
        predicate: Option<&EncodedTerm>,
        object: Option<&EncodedTerm>,
        graph_name: Option<&EncodedTerm>,
    ) -> (r: Vec<EncodedQuad>)
        requires
            self.wf(),
            bound_wf(subject),
            bound_wf(predicate),
            bound_wf(object),
            graph_name matches Some(g) ==> term_wf(*g),
        ensures
            forall|q: EncodedQuad| #[trigger] r@.contains(q) <==> self.quads().contains(q) && matches_pattern(
                q,
                opt_term(subject),
                opt_term(predicate),
                opt_term(object),
                opt_term(graph_name),
            ),
            forall|i: int, j: int|
                0 <= i < j < r@.len() ==> index_before(
                    default_index_of(subject is Some, predicate is Some, object is Some),
                    named_index_of(subject is Some, predicate is Some, object is Some, graph_name is Some),
                    #[trigger] r@[i],
                    #[trigger] r@[j],
                ),
    {
        let ghost ed = default_index_of(subject is Some, predicate is Some, object is Some);
        let ghost en = named_index_of(subject is Some, predicate is Some, object is Some, graph_name is Some);
        match graph_name {
            Some(g) => {
                if g.is_default_graph() {
                    let (e, prefix) = default_index(subject, predicate, object);
                    let r = self.scan_pattern_index(e, &prefix);
                    proof {
                        assert forall|i: int, j: int| 0 <= i < j < r@.len() implies index_before(ed, en, #[trigger] r@[i], #[trigger] r@[j]) by {
                            assert(r@.contains(r@[i]) && r@.contains(r@[j]));
                        }
                    }
                    r
                } else {
                    let (e, prefix) = named_index(subject, predicate, object, Some(g));
                    let r = self.scan_pattern_index(e, &prefix);
                    proof {
                        assert forall|i: int, j: int| 0 <= i < j < r@.len() implies index_before(ed, en, #[trigger] r@[i], #[trigger] r@[j]) by {
                            assert(r@.contains(r@[i]) && r@.contains(r@[j]));
                        }
                    }
                    r
                }
            },
            None => {
                let (e1, prefix1) = default_index(subject, predicate, object);
                let mut r = self.scan_pattern_index(e1, &prefix1);
                let (e2, prefix2) = named_index(subject, predicate, object, None);
                let mut r2 = self.scan_pattern_index(e2, &prefix2);
                let ghost a = r@;
                let ghost b = r2@;
                r.append(&mut r2);
                proof {
                    assert forall|i: int, j: int| 0 <= i < j < r@.len() implies index_before(ed, en, #[trigger] r@[i], #[trigger] r@[j]) by {
                        if j < a.len() {
                            assert(r@[i] == a[i] && r@[j] == a[j]);
                            assert(a.contains(a[i]) && a.contains(a[j]));
                        } else if i < a.len() {
                            assert(r@[i] == a[i] && r@[j] == b[j - a.len()]);
                            assert(a.contains(a[i]) && b.contains(b[j - a.len()]));
                        } else {
                            assert(r@[i] == b[i - a.len()] && r@[j] == b[j - a.len()]);
                            assert(b.contains(b[i - a.len()]) && b.contains(b[j - a.len()]));
                        }
                    }
                    assert forall|q: EncodedQuad| #[trigger] r@.contains(q) <==> a.contains(q) || b.contains(q) by {
                        if r@.contains(q) {
                            let j = choose|j: int| 0 <= j < r@.len() && r@[j] == q;
                            if j < a.len() {
                                assert(a[j] == q);
                            } else {
                                assert(b[j - a.len()] == q);
                            }
                        }
                        if a.contains(q) {
                            let j = choose|j: int| 0 <= j < a.len() && a[j] == q;
                            assert(r@[j] == q);
                        }
                        if b.contains(q) {
                            let j = choose|j: int| 0 <= j < b.len() && b[j] == q;
                            assert(r@[a.len() + j] == q);
                        }
                    }
                }
                r
            },
        }
    }
}

/// The encoding of a bound term, where it is bound.
pub open spec fn opt_encoded_term(t: Option<&Term>) -> Option<EncodedTerm> {
    match t {
        Some(x) => Some(encode_term_spec(*x)),
        None => None,
    }
}

/// Whether the store has the strings of the bound term.
pub open spec fn opt_term_present(s: RocksDbStore, t: Option<&Term>) -> bool {
    t matches Some(x) ==> strings_present(s.strings(), term_strings_spec(*x))
}

/// Whether the store has the strings of every bound component of a pattern.
pub open spec fn pattern_present(
    s: RocksDbStore,
    subject: Option<&Term>,
    predicate: Option<&NamedNode>,
    object: Option<&Term>,
    graph_name: Option<&GraphName>,
) -> bool {
    &&& opt_term_present(s, subject)
    &&& (predicate matches Some(x) ==> strings_present(s.strings(), hashed(x.iri@)))
    &&& opt_term_present(s, object)
    &&& (graph_name matches Some(x) ==> strings_present(s.strings(), graph_name_strings_spec(*x)))
}

/// The encoded pattern of bound components.
pub open spec fn encoded_pattern_matches(
    q: EncodedQuad,
    subject: Option<&Term>,
    predicate: Option<&NamedNode>,
    object: Option<&Term>,
    graph_name: Option<&GraphName>,
) -> bool {
    matches_pattern(
        q,
        opt_encoded_term(subject),
        match predicate {
            Some(x) => Some(encode_named_node_spec(x.iri@)),
            None => None,
        },
        opt_encoded_term(object),
        match graph_name {
            Some(x) => Some(encode_graph_name_spec(*x)),
            None => None,
        },
    )
}

impl RocksDbStore {
    /// The quads that match a pattern, decoded: none where the store lacks
    /// a string of a bound component, which then matches no quad.
    pub fn quads_for_pattern(
        &self,
        subject: Option<&Term>,
        predicate: Option<&NamedNode>,
        object: Option<&Term>,
        graph_name: Option<&GraphName>,
    ) -> (r: Result<Vec<Quad>, StorageError>)
        requires
            self.wf(),
        ensures
            !pattern_present(*self, subject, predicate, object, graph_name) ==> (r matches Ok(v) && v@.len() == 0),
            pattern_present(*self, subject, predicate, object, graph_name) ==> {
                let sel = self.quads().filter(|q: EncodedQuad| encoded_pattern_matches(q, subject, predicate, object, graph_name));
                &&& (r is Ok <==> forall|e: EncodedQuad| #[trigger] sel.contains(e) ==> quad_decodable(e, self.strings()))
                &&& (r matches Ok(v) ==> decoded_quads(sel, self.strings(), v@))
                &&& (r matches Ok(v) ==> decoded_in_index_order(
                    sel,
                    self.strings(),
                    v@,
                    default_index_of(subject is Some, predicate is Some, object is Some),
                    named_index_of(subject is Some, predicate is Some, object is Some, graph_name is Some),
                ))
            },
    {
        let s = match subject {
            Some(t) => match self.get_encoded_term(t) {
                Ok(Some(e)) => Some(e),
                _ => return Ok(Vec::new()),
            },
            None => None,
        };
        let p = match predicate {
            Some(n) => match self.get_encoded_named_node(n) {
                Some(e) => Some(e),
                None => return Ok(Vec::new()),
            },
            None => None,
        };
        let o = match object {
            Some(t) => match self.get_encoded_term(t) {
                Ok(Some(e)) => Some(e),
                _ => return Ok(Vec::new()),
            },
            None => None,
        };
        let g = match graph_name {
            Some(n) => match self.get_encoded_graph_name(n) {
                Ok(Some(e)) => Some(e),
                _ => return Ok(Vec::new()),
            },
            None => None,
        };
        proof {
            if let Some(t) = subject {
                crate::term_encoder::lemma_encode_term_wf(*t);
            }
            if let Some(t) = object {
                crate::term_encoder::lemma_encode_term_wf(*t);
            }
            if let Some(n) = graph_name {
                crate::term_encoder::lemma_encode_graph_name_wf(*n);
            }
        }
        let encoded = self.encoded_quads_for_pattern(s.as_ref(), p.as_ref(), o.as_ref(), g.as_ref());
        let r = self.decode_quads(&encoded);
        let ghost sel = self.quads().filter(|q: EncodedQuad| encoded_pattern_matches(q, subject, predicate, object, graph_name));
        proof {
            assert forall|q: EncodedQuad| #[trigger] encoded@.contains(q) <==> sel.contains(q) by {}
            crate::store::lemma_decoded_quads(sel, self.strings(), encoded@, r);
            if r is Ok {
                assert(in_index_order(
                    sel,
                    encoded@,
                    default_index_of(subject is Some, predicate is Some, object is Some),
                    named_index_of(subject is Some, predicate is Some, object is Some, graph_name is Some),
                ));
            }
        }
        r
    }

    /// All the quads of the store, decoded.
    pub fn iter(&self) -> (r: Result<Vec<Quad>, StorageError>)
        requires
            self.wf(),
        ensures
            r is Ok <==> forall|e: EncodedQuad| #[trigger] self.quads().contains(e) ==> quad_decodable(e, self.strings()),
            r matches Ok(v) ==> decoded_quads(self.quads(), self.strings(), v@),
            r matches Ok(v) ==> crate::store::decoded_in_key_order(self.quads(), self.strings(), v@),
    {
        self.dump_dataset()
    }
}

} // verus!
