//! The in-memory store: quads of term ids held in nested hash maps, one per
//! order of the quad's components, and the terms those ids stand for.

use vstd::prelude::*;
use std::collections::{HashMap, HashSet};
use std::collections::hash_map::DefaultHasher;
use std::hash::Hasher;
use vstd::std_specs::iter::IteratorSpec;
use crate::backend::Tree;
use crate::binary_encoder::{encode_term, lemma_term_roundtrip, quad_wf, term_bytes};
use crate::endian::{lemma_u64_value_roundtrip, u64_from_be, u64_from_be_bytes, u64_to_be, u64_to_be_bytes};
use crate::numeric_encoder::{term_wf, EncodedQuad, EncodedTerm};
use crate::store::{decoded_quads, lemma_decoded_quads, quad_decodable, storable, strings_map};
use crate::relabel::{loaded_quads, loaded_triples, relabel_quads, relabel_triples};
use crate::isomorphism::{canonical_form, iso_canonical_form, same_lines};
use crate::str_hash::StrHash;
use crate::small_string::str_from_utf8;
use crate::error::StorageError;
use crate::model::{GraphName, NamedNode, Quad, Term, Triple};
use crate::term_decoder::{quad_decodes_to, StrLookup, TermDecoder};
use crate::term_encoder::{
    encode_graph_name_spec, encode_named_node_spec, encode_quad_spec, encode_term_spec, insert_quad_strings,
    lemma_encode_graph_name_wf, lemma_encode_term_wf, pair_views, quad_strings_spec, TermEncoder,
};
use vstd::utf8::valid_utf8;

verus! {

/// Name for the value that `std`'s `DefaultHasher`, made by `new` (with no
/// random seed), finishes with after being fed these bytes. `std` leaves the
/// algorithm open between its releases, so the values are only compared
/// within one build; nothing here fixes them.
pub uninterp spec fn default_hash_of(bytes: Seq<u8>) -> u64;

/// `std::collections::hash_map::DefaultHasher::new`, `write` of the bytes,
/// then `finish`. Its value is only named.
#[verifier::external_body]
pub(crate) fn default_hash(bytes: &[u8]) -> (r: u64)
    ensures
        r == default_hash_of(bytes@),
{
    let mut hasher = DefaultHasher::new();
    hasher.write(bytes);
    hasher.finish()
}


broadcast use vstd::std_specs::hash::group_hash_axioms;

/// Three levels of ids: first, second, then the set of thirds.
pub type TripleMap = HashMap<u64, HashMap<u64, HashSet<u64>>>;

/// Four levels of ids.
pub type QuadMap = HashMap<u64, TripleMap>;

/// The pairs of a map from ids to sets of ids.
pub open spec fn pairs_of(m: HashMap<u64, HashSet<u64>>) -> Set<(u64, u64)> {
    Set::new(|t: (u64, u64)| m@.contains_key(t.0) && m@[t.0]@.contains(t.1))
}

/// The triples of a triple map.
pub open spec fn triples_of(m: TripleMap) -> Set<(u64, u64, u64)> {
    Set::new(
        |t: (u64, u64, u64)|
            m@.contains_key(t.0) && m@[t.0]@.contains_key(t.1) && m@[t.0]@[t.1]@.contains(t.2),
    )
}

/// The quads of a quad map.
pub open spec fn quad_set_of(m: QuadMap) -> Set<(u64, u64, u64, u64)> {
    Set::new(
        |t: (u64, u64, u64, u64)|
            m@.contains_key(t.0) && triples_of(m@[t.0]).contains((t.1, t.2, t.3)),
    )
}

/// No map or set inside is empty.
pub open spec fn pair_map_wf(m: HashMap<u64, HashSet<u64>>) -> bool {
    forall|b: u64| #[trigger] m@.contains_key(b) ==> !m@[b]@.is_empty()
}

pub open spec fn triple_map_wf(m: TripleMap) -> bool {
    forall|a: u64| #[trigger] m@.contains_key(a) ==> !m@[a]@.is_empty() && pair_map_wf(m@[a])
}

pub open spec fn quad_map_wf(m: QuadMap) -> bool {
    forall|a: u64| #[trigger] m@.contains_key(a) ==> !m@[a]@.is_empty() && triple_map_wf(m@[a])
}

/// Adds a triple.
pub fn insert_into_triple_map(map: &mut TripleMap, e1: u64, e2: u64, e3: u64)
    requires
        triple_map_wf(*old(map)),
    ensures
        triple_map_wf(*final(map)),
        triples_of(*final(map)) == triples_of(*old(map)).insert((e1, e2, e3)),
{
    let ghost old_map = *map;
    let mut inner: HashMap<u64, HashSet<u64>> = match map.remove(&e1) {
        Some(m) => m,
        None => HashMap::new(),
    };
    let ghost old_inner = inner;
    let mut set: HashSet<u64> = match inner.remove(&e2) {
        Some(s) => s,
        None => HashSet::new(),
    };
    let ghost old_set = set;
    set.insert(e3);
    inner.insert(e2, set);
    map.insert(e1, inner);
    proof {
        assert(triples_of(*map) =~= triples_of(old_map).insert((e1, e2, e3))) by {
            assert forall|t: (u64, u64, u64)| #[trigger] triples_of(*map).contains(t)
                == triples_of(old_map).insert((e1, e2, e3)).contains(t) by {
                if t.0 == e1 && t.1 == e2 {
                } else if t.0 == e1 {
                    assert(old_map@.contains_key(e1) ==> old_inner == old_map@[e1]);
                }
            }
        }
        assert forall|a: u64| #[trigger] map@.contains_key(a) implies !map@[a]@.is_empty()
            && pair_map_wf(map@[a]) by {
            if a == e1 {
                assert(map@[a]@.contains_key(e2));
                assert forall|b: u64| #[trigger] map@[a]@.contains_key(b) implies !map@[a]@[b]@.is_empty() by {
                    if b == e2 {
                        assert(map@[a]@[b]@.contains(e3));
                    } else {
                        assert(old_map@.contains_key(e1));
                        assert(old_inner == old_map@[e1]);
                    }
                }
            }
        }
    }
}

/// Adds a quad.
pub fn insert_into_quad_map(map: &mut QuadMap, e1: u64, e2: u64, e3: u64, e4: u64)
    requires
        quad_map_wf(*old(map)),
    ensures
        quad_map_wf(*final(map)),
        quad_set_of(*final(map)) == quad_set_of(*old(map)).insert((e1, e2, e3, e4)),
{
    let ghost old_map = *map;
    let mut inner: TripleMap = match map.remove(&e1) {
        Some(m) => m,
        None => HashMap::new(),
    };
    let ghost old_inner = inner;
    insert_into_triple_map(&mut inner, e2, e3, e4);
    map.insert(e1, inner);
    proof {
        assert(quad_set_of(*map) =~= quad_set_of(old_map).insert((e1, e2, e3, e4))) by {
            assert forall|t: (u64, u64, u64, u64)| #[trigger] quad_set_of(*map).contains(t)
                == quad_set_of(old_map).insert((e1, e2, e3, e4)).contains(t) by {
                if t.0 == e1 {
                    assert(old_map@.contains_key(e1) ==> old_inner == old_map@[e1]);
                    assert(!old_map@.contains_key(e1) ==> triples_of(old_inner) =~= Set::empty());
                }
            }
        }
        assert forall|a: u64| #[trigger] map@.contains_key(a) implies !map@[a]@.is_empty()
            && triple_map_wf(map@[a]) by {
            if a == e1 {
                assert(triples_of(map@[a]).contains((e2, e3, e4)));
                assert(map@[a]@.contains_key(e2));
            }
        }
    }
}

/// Removes a triple; maps and sets left empty go.
pub fn remove_from_triple_map(map1: &mut TripleMap, e1: u64, e2: u64, e3: u64)
    requires
        triple_map_wf(*old(map1)),
    ensures
        triple_map_wf(*final(map1)),
        triples_of(*final(map1)) == triples_of(*old(map1)).remove((e1, e2, e3)),
{
    let ghost old_map = *map1;
    if let Some(mut map2) = map1.remove(&e1) {
        let ghost old_map2 = map2;
        if let Some(mut set3) = map2.remove(&e2) {
            let ghost old_set3 = set3;
            set3.remove(&e3);
            if !set3.is_empty() {
                map2.insert(e2, set3);
            }
        }
        if !map2.is_empty() {
            map1.insert(e1, map2);
        }
        proof {
            assert(old_map2 == old_map@[e1]);
        }
    }
    proof {
        assert(triples_of(*map1) =~= triples_of(old_map).remove((e1, e2, e3)));
        assert forall|a: u64| #[trigger] map1@.contains_key(a) implies !map1@[a]@.is_empty()
            && pair_map_wf(map1@[a]) by {
            assert(old_map@.contains_key(a));
        }
    }
}

/// Removes a quad; maps and sets left empty go.
pub fn remove_from_quad_map(quad_map: &mut QuadMap, e1: u64, e2: u64, e3: u64, e4: u64)
    requires
        quad_map_wf(*old(quad_map)),
    ensures
        quad_map_wf(*final(quad_map)),
        quad_set_of(*final(quad_map)) == quad_set_of(*old(quad_map)).remove((e1, e2, e3, e4)),
{
    let ghost old_map = *quad_map;
    if let Some(mut triple_map) = quad_map.remove(&e1) {
        let ghost old_triples = triple_map;
        remove_from_triple_map(&mut triple_map, e2, e3, e4);
        let ghost removed = triple_map;
        if !triple_map.is_empty() {
            quad_map.insert(e1, triple_map);
        } else {
            assert(triples_of(triple_map) =~= Set::empty());
        }
        proof {
            assert(old_triples == old_map@[e1]);
            assert forall|t: (u64, u64, u64, u64)| #[trigger] quad_set_of(*quad_map).contains(t)
                == quad_set_of(old_map).remove((e1, e2, e3, e4)).contains(t) by {
                if t.0 == e1 {
                    assert(triples_of(removed).contains((t.1, t.2, t.3)) == triples_of(old_triples).remove((e2, e3, e4)).contains((t.1, t.2, t.3)));
                }
            }
        }
    }
    proof {
        assert(quad_set_of(*quad_map) =~= quad_set_of(old_map).remove((e1, e2, e3, e4)));
        assert forall|a: u64| #[trigger] quad_map@.contains_key(a) implies !quad_map@[a]@.is_empty()
            && triple_map_wf(quad_map@[a]) by {
            assert(old_map@.contains_key(a));
        }
    }
}

/// The elements of a set, each once.
fn set_elements(s: &HashSet<u64>) -> (r: Vec<u64>)
    ensures
        forall|x: u64| #[trigger] r@.contains(x) <==> s@.contains(x),
        r@.no_duplicates(),
{
    let mut r: Vec<u64> = Vec::new();
    let ghost elems = vstd::std_specs::hash::spec_hash_keys_iter(s).remaining().unref();
    for x in it: s.iter()
        invariant
            it.seq().unref() == elems,
            r@ == elems.take(it.index()),
    {
        r.push(*x);
        assert(elems.take(it.index() + 1) =~= r@);
    }
    assert(r@ =~= elems);
    assert forall|x: u64| #[trigger] r@.contains(x) <==> s@.contains(x) by {
        assert(r@.to_set().contains(x) == r@.contains(x));
    }
    r
}

/// The keys of a map, each once.
fn map_keys<V>(m: &HashMap<u64, V>) -> (r: Vec<u64>)
    ensures
        forall|x: u64| #[trigger] r@.contains(x) <==> m@.contains_key(x),
        r@.no_duplicates(),
{
    let mut r: Vec<u64> = Vec::new();
    let ghost elems = vstd::std_specs::hash::spec_keys_iter(m).remaining().unref();
    for x in it: m.keys()
        invariant
            it.seq().unref() == elems,
            r@ == elems.take(it.index()),
    {
        r.push(*x);
        assert(elems.take(it.index() + 1) =~= r@);
    }
    assert(r@ =~= elems);
    assert forall|x: u64| #[trigger] r@.contains(x) <==> m@.contains_key(x) by {
        assert(r@.to_set().contains(x) == r@.contains(x));
    }
    r
}

proof fn lemma_take_next<A>(s: Seq<A>, n: int, x: A)
    requires
        0 <= n < s.len(),
    ensures
        s.take(n + 1).contains(x) <==> (s.take(n).contains(x) || x == s[n]),
{
    let t1 = s.take(n + 1);
    let t0 = s.take(n);
    if t1.contains(x) {
        let w = choose|w: int| 0 <= w < t1.len() && t1[w] == x;
        if w < n {
            assert(t0[w] == x);
        }
    }
    if t0.contains(x) {
        let w = choose|w: int| 0 <= w < t0.len() && t0[w] == x;
        assert(t1[w] == x);
    }
    if x == s[n] {
        assert(s.take(n + 1)[n] == x);
    }
}

/// The pairs of a map from ids to sets of ids, each once; none for no map.
pub fn option_pair_map_flatten(i: Option<&HashMap<u64, HashSet<u64>>>) -> (r: Vec<(u64, u64)>)
    ensures
        forall|t: (u64, u64)| #[trigger] r@.contains(t) <==> (i matches Some(m) && pairs_of(*m).contains(t)),
        r@.no_duplicates(),
{
    let mut r: Vec<(u64, u64)> = Vec::new();
    let m = match i {
        Some(m) => m,
        None => {
            return r;
        },
    };
    let keys = map_keys(m);
    let mut k: usize = 0;
    while k < keys.len()
        invariant
            k <= keys@.len(),
            forall|x: u64| #[trigger] keys@.contains(x) <==> m@.contains_key(x),
            keys@.no_duplicates(),
            r@.no_duplicates(),
            forall|t: (u64, u64)| #[trigger] r@.contains(t) <==> (keys@.take(k as int).contains(t.0)
                && pairs_of(*m).contains(t)),
        decreases keys.len() - k,
    {
        let key = keys[k];
        assert(keys@.contains(key));
        let elems = set_elements(m.get(&key).unwrap());
        let mut j: usize = 0;
        while j < elems.len()
            invariant
                j <= elems@.len(),
                k < keys@.len(),
                key == keys@[k as int],
                keys@.no_duplicates(),
                m@.contains_key(key),
                forall|x: u64| #[trigger] elems@.contains(x) <==> m@[key]@.contains(x),
                elems@.no_duplicates(),
                r@.no_duplicates(),
                forall|t: (u64, u64)| #[trigger] r@.contains(t) <==> ((keys@.take(k as int).contains(t.0)
                    && pairs_of(*m).contains(t)) || (t.0 == key && elems@.take(j as int).contains(t.1))),
            decreases elems.len() - j,
        {
            let v = elems[j];
            proof {
                assert(!keys@.take(k as int).contains(key)) by {
                    if keys@.take(k as int).contains(key) {
                        let w = choose|w: int| 0 <= w < k && keys@[w] == key;
                        assert(keys@[w] == keys@[k as int]);
                    }
                }
                assert(!elems@.take(j as int).contains(v)) by {
                    if elems@.take(j as int).contains(v) {
                        let w = choose|w: int| 0 <= w < j && elems@[w] == v;
                        assert(elems@[w] == elems@[j as int]);
                    }
                }
                assert(elems@.contains(v));
            }
            let ghost old_r = r@;
            r.push((key, v));
            proof {
                assert forall|t: (u64, u64)| #[trigger] r@.contains(t) <==> ((keys@.take(k as int).contains(t.0)
                    && pairs_of(*m).contains(t)) || (t.0 == key && elems@.take(j + 1).contains(t.1))) by {
                    lemma_take_next(elems@, j as int, t.1);
                    if t == (key, v) {
                        assert(r@[old_r.len() as int] == t);
                    } else {
                        if r@.contains(t) {
                            let w = choose|w: int| 0 <= w < r@.len() && r@[w] == t;
                            assert(old_r[w] == t);
                        }
                        if old_r.contains(t) {
                            let w = choose|w: int| 0 <= w < old_r.len() && old_r[w] == t;
                            assert(r@[w] == t);
                        }
                    }
                }
                assert(!old_r.contains((key, v)));
                assert forall|a: int, b: int| 0 <= a < b < r@.len() implies r@[a] != r@[b] by {
                    if b == old_r.len() {
                        assert(old_r[a] == r@[a]);
                        assert(old_r.contains(r@[a]));
                    } else {
                        assert(old_r[a] == r@[a] && old_r[b] == r@[b]);
                    }
                }
            }
            j = j + 1;
        }
        proof {
            assert(keys@.take(k + 1) =~= keys@.take(k as int).push(key));
            assert forall|t: (u64, u64)| #[trigger] r@.contains(t) <==> (keys@.take(k + 1).contains(t.0)
                && pairs_of(*m).contains(t)) by {
                lemma_take_next(keys@, k as int, t.0);
                if t.0 == key {
                    assert(elems@.take(elems@.len() as int) =~= elems@);
                }
            }
        }
        k = k + 1;
    }
    proof {
        assert(keys@.take(keys@.len() as int) =~= keys@);
    }
    r
}

/// The elements of a set, each once; none for no set.
pub fn option_set_flatten(i: Option<&HashSet<u64>>) -> (r: Vec<u64>)
    ensures
        forall|x: u64| #[trigger] r@.contains(x) <==> (i matches Some(s) && s@.contains(x)),
        r@.no_duplicates(),
{
    match i {
        Some(s) => set_elements(s),
        None => Vec::new(),
    }
}

/// The triples of a triple map, each once.
pub fn triple_map_flatten(spo: &TripleMap) -> (r: Vec<(u64, u64, u64)>)
    ensures
        forall|t: (u64, u64, u64)| #[trigger] r@.contains(t) <==> triples_of(*spo).contains(t),
        r@.no_duplicates(),
{
    let mut r: Vec<(u64, u64, u64)> = Vec::new();
    let keys = map_keys(spo);
    let mut k: usize = 0;
    while k < keys.len()
        invariant
            k <= keys@.len(),
            forall|x: u64| #[trigger] keys@.contains(x) <==> spo@.contains_key(x),
            keys@.no_duplicates(),
            r@.no_duplicates(),
            forall|t: (u64, u64, u64)| #[trigger] r@.contains(t) <==> (keys@.take(k as int).contains(t.0)
                && triples_of(*spo).contains(t)),
        decreases keys.len() - k,
    {
        let key = keys[k];
        assert(keys@.contains(key));
        let pairs = option_pair_map_flatten(spo.get(&key));
        let mut j: usize = 0;
        while j < pairs.len()
            invariant
                j <= pairs@.len(),
                k < keys@.len(),
                key == keys@[k as int],
                keys@.no_duplicates(),
                spo@.contains_key(key),
                forall|x: (u64, u64)| #[trigger] pairs@.contains(x) <==> pairs_of(spo@[key]).contains(x),
                pairs@.no_duplicates(),
                r@.no_duplicates(),
                forall|t: (u64, u64, u64)| #[trigger] r@.contains(t) <==> ((keys@.take(k as int).contains(t.0)
                    && triples_of(*spo).contains(t)) || (t.0 == key && pairs@.take(j as int).contains((t.1, t.2)))),
            decreases pairs.len() - j,
        {
            let v = pairs[j];
            proof {
                assert(!keys@.take(k as int).contains(key)) by {
                    if keys@.take(k as int).contains(key) {
                        let w = choose|w: int| 0 <= w < k && keys@[w] == key;
                        assert(keys@[w] == keys@[k as int]);
                    }
                }
                assert(!pairs@.take(j as int).contains(v)) by {
                    if pairs@.take(j as int).contains(v) {
                        let w = choose|w: int| 0 <= w < j && pairs@[w] == v;
                        assert(pairs@[w] == pairs@[j as int]);
                    }
                }
                assert(pairs@.contains(v));
            }
            let ghost old_r = r@;
            r.push((key, v.0, v.1));
            proof {
                let nt = (key, v.0, v.1);
                assert forall|t: (u64, u64, u64)| #[trigger] r@.contains(t) <==> ((keys@.take(k as int).contains(t.0)
                    && triples_of(*spo).contains(t)) || (t.0 == key && pairs@.take(j + 1).contains((t.1, t.2)))) by {
                    lemma_take_next(pairs@, j as int, (t.1, t.2));
                    if t == nt {
                        assert(r@[old_r.len() as int] == t);
                    } else {
                        if r@.contains(t) {
                            let w = choose|w: int| 0 <= w < r@.len() && r@[w] == t;
                            assert(old_r[w] == t);
                        }
                        if old_r.contains(t) {
                            let w = choose|w: int| 0 <= w < old_r.len() && old_r[w] == t;
                            assert(r@[w] == t);
                        }
                    }
                }
                assert(!old_r.contains(nt));
                assert forall|a: int, b: int| 0 <= a < b < r@.len() implies r@[a] != r@[b] by {
                    if b == old_r.len() {
                        assert(old_r[a] == r@[a]);
                        assert(old_r.contains(r@[a]));
                    } else {
                        assert(old_r[a] == r@[a] && old_r[b] == r@[b]);
                    }
                }
            }
            j = j + 1;
        }
        proof {
            assert forall|t: (u64, u64, u64)| #[trigger] r@.contains(t) <==> (keys@.take(k + 1).contains(t.0)
                && triples_of(*spo).contains(t)) by {
                lemma_take_next(keys@, k as int, t.0);
                if t.0 == key {
                    assert(pairs@.take(pairs@.len() as int) =~= pairs@);
                    assert(pairs_of(spo@[key]).contains((t.1, t.2)) == triples_of(*spo).contains(t));
                }
            }
        }
        k = k + 1;
    }
    proof {
        assert(keys@.take(keys@.len() as int) =~= keys@);
    }
    r
}

/// The triples of a triple map, each once; none for no map.
pub fn option_triple_map_flatten(i: Option<&TripleMap>) -> (r: Vec<(u64, u64, u64)>)
    ensures
        forall|t: (u64, u64, u64)| #[trigger] r@.contains(t) <==> (i matches Some(m) && triples_of(*m).contains(t)),
        r@.no_duplicates(),
{
    match i {
        Some(m) => triple_map_flatten(m),
        None => Vec::new(),
    }
}

/// The quads of a quad map, each once.
pub fn quad_map_flatten(gspo: &QuadMap) -> (r: Vec<(u64, u64, u64, u64)>)
    ensures
        forall|t: (u64, u64, u64, u64)| #[trigger] r@.contains(t) <==> quad_set_of(*gspo).contains(t),
        r@.no_duplicates(),
{
    let mut r: Vec<(u64, u64, u64, u64)> = Vec::new();
    let keys = map_keys(gspo);
    let mut k: usize = 0;
    while k < keys.len()
        invariant
            k <= keys@.len(),
            forall|x: u64| #[trigger] keys@.contains(x) <==> gspo@.contains_key(x),
            keys@.no_duplicates(),
            r@.no_duplicates(),
            forall|t: (u64, u64, u64, u64)| #[trigger] r@.contains(t) <==> (keys@.take(k as int).contains(t.0)
                && quad_set_of(*gspo).contains(t)),
        decreases keys.len() - k,
    {
        let key = keys[k];
        assert(keys@.contains(key));
        let triples = triple_map_flatten(gspo.get(&key).unwrap());
        let mut j: usize = 0;
        while j < triples.len()
            invariant
                j <= triples@.len(),
                k < keys@.len(),
                key == keys@[k as int],
                keys@.no_duplicates(),
                gspo@.contains_key(key),
                forall|x: (u64, u64, u64)| #[trigger] triples@.contains(x) <==> triples_of(gspo@[key]).contains(x),
                triples@.no_duplicates(),
                r@.no_duplicates(),
                forall|t: (u64, u64, u64, u64)| #[trigger] r@.contains(t) <==> ((keys@.take(k as int).contains(t.0)
                    && quad_set_of(*gspo).contains(t)) || (t.0 == key && triples@.take(j as int).contains((t.1, t.2, t.3)))),
            decreases triples.len() - j,
        {
            let v = triples[j];
            proof {
                assert(!keys@.take(k as int).contains(key)) by {
                    if keys@.take(k as int).contains(key) {
                        let w = choose|w: int| 0 <= w < k && keys@[w] == key;
                        assert(keys@[w] == keys@[k as int]);
                    }
                }
                assert(!triples@.take(j as int).contains(v)) by {
                    if triples@.take(j as int).contains(v) {
                        let w = choose|w: int| 0 <= w < j && triples@[w] == v;
                        assert(triples@[w] == triples@[j as int]);
                    }
                }
                assert(triples@.contains(v));
            }
            let ghost old_r = r@;
            r.push((key, v.0, v.1, v.2));
            proof {
                let nt = (key, v.0, v.1, v.2);
                assert forall|t: (u64, u64, u64, u64)| #[trigger] r@.contains(t) <==> ((keys@.take(k as int).contains(t.0)
                    && quad_set_of(*gspo).contains(t)) || (t.0 == key && triples@.take(j + 1).contains((t.1, t.2, t.3)))) by {
                    lemma_take_next(triples@, j as int, (t.1, t.2, t.3));
                    if t == nt {
                        assert(r@[old_r.len() as int] == t);
                    } else {
                        if r@.contains(t) {
                            let w = choose|w: int| 0 <= w < r@.len() && r@[w] == t;
                            assert(old_r[w] == t);
                        }
                        if old_r.contains(t) {
                            let w = choose|w: int| 0 <= w < old_r.len() && old_r[w] == t;
                            assert(r@[w] == t);
                        }
                    }
                }
                assert(!old_r.contains(nt));
                assert forall|a: int, b: int| 0 <= a < b < r@.len() implies r@[a] != r@[b] by {
                    if b == old_r.len() {
                        assert(old_r[a] == r@[a]);
                        assert(old_r.contains(r@[a]));
                    } else {
                        assert(old_r[a] == r@[a] && old_r[b] == r@[b]);
                    }
                }
            }
            j = j + 1;
        }
        proof {
            assert forall|t: (u64, u64, u64, u64)| #[trigger] r@.contains(t) <==> (keys@.take(k + 1).contains(t.0)
                && quad_set_of(*gspo).contains(t)) by {
                lemma_take_next(keys@, k as int, t.0);
                if t.0 == key {
                    assert(triples@.take(triples@.len() as int) =~= triples@);
                }
            }
        }
        k = k + 1;
    }
    proof {
        assert(keys@.take(keys@.len() as int) =~= keys@);
    }
    r
}

proof fn lemma_push_no_dup<A>(s: Seq<A>, x: A)
    requires
        s.no_duplicates(),
        !s.contains(x),
    ensures
        s.push(x).no_duplicates(),
        forall|y: A| #[trigger] s.push(x).contains(y) <==> (s.contains(y) || y == x),
{
    let t = s.push(x);
    assert forall|a: int, b: int| 0 <= a < b < t.len() implies t[a] != t[b] by {
        if b == s.len() {
            assert(t[a] == s[a]);
        } else {
            assert(t[a] == s[a] && t[b] == s[b]);
        }
    }
    assert forall|y: A| #[trigger] t.contains(y) <==> (s.contains(y) || y == x) by {
        if t.contains(y) {
            let w = choose|w: int| 0 <= w < t.len() && t[w] == y;
            if w < s.len() {
                assert(s[w] == y);
            }
        }
        if s.contains(y) {
            let w = choose|w: int| 0 <= w < s.len() && s[w] == y;
            assert(t[w] == y);
        }
        if y == x {
            assert(t[s.len() as int] == y);
        }
    }
}

proof fn lemma_take_not_contains<A>(s: Seq<A>, i: int)
    requires
        s.no_duplicates(),
        0 <= i < s.len(),
    ensures
        !s.take(i).contains(s[i]),
{
    if s.take(i).contains(s[i]) {
        let w = choose|w: int| 0 <= w < s.take(i).len() && s.take(i)[w] == s[i];
        assert(s[w] == s[i]);
    }
}

/// The pairs, each after `a`.
fn prefix_pairs(a: u64, v: &Vec<(u64, u64)>) -> (r: Vec<(u64, u64, u64)>)
    requires
        v@.no_duplicates(),
    ensures
        forall|t: (u64, u64, u64)| #[trigger] r@.contains(t) <==> (t.0 == a && v@.contains((t.1, t.2))),
        r@.no_duplicates(),
{
    let mut r: Vec<(u64, u64, u64)> = Vec::new();
    let mut i: usize = 0;
    while i < v.len()
        invariant
            i <= v@.len(),
            v@.no_duplicates(),
            r@.no_duplicates(),
            forall|t: (u64, u64, u64)| #[trigger] r@.contains(t) <==> (t.0 == a && v@.take(i as int).contains((t.1, t.2))),
        decreases v.len() - i,
    {
        let x = v[i];
        proof {
            lemma_take_not_contains(v@, i as int);
            lemma_push_no_dup(r@, (a, x.0, x.1));
            assert forall|t: (u64, u64, u64)| #[trigger] r@.push((a, x.0, x.1)).contains(t) <==> (t.0 == a
                && v@.take(i + 1).contains((t.1, t.2))) by {
                lemma_take_next(v@, i as int, (t.1, t.2));
            }
        }
        r.push((a, x.0, x.1));
        i = i + 1;
    }
    assert(v@.take(v@.len() as int) =~= v@);
    r
}

/// The elements, each after `a` and `b`.
fn prefix_elements(a: u64, b: u64, v: &Vec<u64>) -> (r: Vec<(u64, u64, u64)>)
    requires
        v@.no_duplicates(),
    ensures
        forall|t: (u64, u64, u64)| #[trigger] r@.contains(t) <==> (t.0 == a && t.1 == b && v@.contains(t.2)),
        r@.no_duplicates(),
{
    let mut r: Vec<(u64, u64, u64)> = Vec::new();
    let mut i: usize = 0;
    while i < v.len()
        invariant
            i <= v@.len(),
            v@.no_duplicates(),
            r@.no_duplicates(),
            forall|t: (u64, u64, u64)| #[trigger] r@.contains(t) <==> (t.0 == a && t.1 == b && v@.take(i as int).contains(t.2)),
        decreases v.len() - i,
    {
        let x = v[i];
        proof {
            lemma_take_not_contains(v@, i as int);
            lemma_push_no_dup(r@, (a, b, x));
            assert forall|t: (u64, u64, u64)| #[trigger] r@.push((a, b, x)).contains(t) <==> (t.0 == a && t.1 == b
                && v@.take(i + 1).contains(t.2)) by {
                lemma_take_next(v@, i as int, t.2);
            }
        }
        r.push((a, b, x));
        i = i + 1;
    }
    assert(v@.take(v@.len() as int) =~= v@);
    r
}

/// The triples, each after `a`.
fn prefix_triples(a: u64, v: &Vec<(u64, u64, u64)>) -> (r: Vec<(u64, u64, u64, u64)>)
    requires
        v@.no_duplicates(),
    ensures
        forall|t: (u64, u64, u64, u64)| #[trigger] r@.contains(t) <==> (t.0 == a && v@.contains((t.1, t.2, t.3))),
        r@.no_duplicates(),
{
    let mut r: Vec<(u64, u64, u64, u64)> = Vec::new();
    let mut i: usize = 0;
    while i < v.len()
        invariant
            i <= v@.len(),
            v@.no_duplicates(),
            r@.no_duplicates(),
            forall|t: (u64, u64, u64, u64)| #[trigger] r@.contains(t) <==> (t.0 == a && v@.take(i as int).contains((t.1, t.2, t.3))),
        decreases v.len() - i,
    {
        let x = v[i];
        proof {
            lemma_take_not_contains(v@, i as int);
            lemma_push_no_dup(r@, (a, x.0, x.1, x.2));
            assert forall|t: (u64, u64, u64, u64)| #[trigger] r@.push((a, x.0, x.1, x.2)).contains(t) <==> (t.0 == a
                && v@.take(i + 1).contains((t.1, t.2, t.3))) by {
                lemma_take_next(v@, i as int, (t.1, t.2, t.3));
            }
        }
        r.push((a, x.0, x.1, x.2));
        i = i + 1;
    }
    assert(v@.take(v@.len() as int) =~= v@);
    r
}

/// The pairs, each after `a` and `b`.
fn prefix2_pairs(a: u64, b: u64, v: &Vec<(u64, u64)>) -> (r: Vec<(u64, u64, u64, u64)>)
    requires
        v@.no_duplicates(),
    ensures
        forall|t: (u64, u64, u64, u64)| #[trigger] r@.contains(t) <==> (t.0 == a && t.1 == b && v@.contains((t.2, t.3))),
        r@.no_duplicates(),
{
    let mut r: Vec<(u64, u64, u64, u64)> = Vec::new();
    let mut i: usize = 0;
    while i < v.len()
        invariant
            i <= v@.len(),
            v@.no_duplicates(),
            r@.no_duplicates(),
            forall|t: (u64, u64, u64, u64)| #[trigger] r@.contains(t) <==> (t.0 == a && t.1 == b && v@.take(i as int).contains((t.2, t.3))),
        decreases v.len() - i,
    {
        let x = v[i];
        proof {
            lemma_take_not_contains(v@, i as int);
            lemma_push_no_dup(r@, (a, b, x.0, x.1));
            assert forall|t: (u64, u64, u64, u64)| #[trigger] r@.push((a, b, x.0, x.1)).contains(t) <==> (t.0 == a && t.1 == b
                && v@.take(i + 1).contains((t.2, t.3))) by {
                lemma_take_next(v@, i as int, (t.2, t.3));
            }
        }
        r.push((a, b, x.0, x.1));
        i = i + 1;
    }
    assert(v@.take(v@.len() as int) =~= v@);
    r
}

/// The elements, each after `a`, `b` and `c`.
fn prefix3_elements(a: u64, b: u64, c: u64, v: &Vec<u64>) -> (r: Vec<(u64, u64, u64, u64)>)
    requires
        v@.no_duplicates(),
    ensures
        forall|t: (u64, u64, u64, u64)| #[trigger] r@.contains(t) <==> (t.0 == a && t.1 == b && t.2 == c && v@.contains(t.3)),
        r@.no_duplicates(),
{
    let mut r: Vec<(u64, u64, u64, u64)> = Vec::new();
    let mut i: usize = 0;
    while i < v.len()
        invariant
            i <= v@.len(),
            v@.no_duplicates(),
            r@.no_duplicates(),
            forall|t: (u64, u64, u64, u64)| #[trigger] r@.contains(t) <==> (t.0 == a && t.1 == b && t.2 == c && v@.take(i as int).contains(t.3)),
        decreases v.len() - i,
    {
        let x = v[i];
        proof {
            lemma_take_not_contains(v@, i as int);
            lemma_push_no_dup(r@, (a, b, c, x));
            assert forall|t: (u64, u64, u64, u64)| #[trigger] r@.push((a, b, c, x)).contains(t) <==> (t.0 == a && t.1 == b
                && t.2 == c && v@.take(i + 1).contains(t.3)) by {
                lemma_take_next(v@, i as int, t.3);
            }
        }
        r.push((a, b, c, x));
        i = i + 1;
    }
    assert(v@.take(v@.len() as int) =~= v@);
    r
}

// ---------------------------------------------------------------------------
// Indexes

/// A quad of term ids; no graph id for the default graph.
#[derive(Clone, Copy, Debug)]
pub struct IdQuad {
    pub subject: u64,
    pub predicate: u64,
    pub object: u64,
    pub graph_name: Option<u64>,
}

/// The order of the ids of a default-graph index.
#[derive(Clone, Copy)]
pub enum TripleOrder {
    Spo,
    Pos,
    Osp,
}

/// The order of the ids of a named-graph index.
#[derive(Clone, Copy)]
pub enum QuadOrder {
    Spog,
    Posg,
    Ospg,
    Gspo,
    Gpos,
    Gosp,
}

/// The default-graph quad of a triple in the order of an index.
pub open spec fn triple_quad(order: TripleOrder, t: (u64, u64, u64)) -> IdQuad {
    match order {
        TripleOrder::Spo => IdQuad { subject: t.0, predicate: t.1, object: t.2, graph_name: None },
        TripleOrder::Pos => IdQuad { subject: t.2, predicate: t.0, object: t.1, graph_name: None },
        TripleOrder::Osp => IdQuad { subject: t.1, predicate: t.2, object: t.0, graph_name: None },
    }
}

/// The triple of a quad in the order of an index.
pub open spec fn quad_triple(order: TripleOrder, q: IdQuad) -> (u64, u64, u64) {
    match order {
        TripleOrder::Spo => (q.subject, q.predicate, q.object),
        TripleOrder::Pos => (q.predicate, q.object, q.subject),
        TripleOrder::Osp => (q.object, q.subject, q.predicate),
    }
}

/// The named-graph quad of a tuple in the order of an index.
pub open spec fn tuple_quad(order: QuadOrder, t: (u64, u64, u64, u64)) -> IdQuad {
    match order {
        QuadOrder::Spog => IdQuad { subject: t.0, predicate: t.1, object: t.2, graph_name: Some(t.3) },
        QuadOrder::Posg => IdQuad { subject: t.2, predicate: t.0, object: t.1, graph_name: Some(t.3) },
        QuadOrder::Ospg => IdQuad { subject: t.1, predicate: t.2, object: t.0, graph_name: Some(t.3) },
        QuadOrder::Gspo => IdQuad { subject: t.1, predicate: t.2, object: t.3, graph_name: Some(t.0) },
        QuadOrder::Gpos => IdQuad { subject: t.3, predicate: t.1, object: t.2, graph_name: Some(t.0) },
        QuadOrder::Gosp => IdQuad { subject: t.2, predicate: t.3, object: t.1, graph_name: Some(t.0) },
    }
}

/// The tuple of a named-graph quad in the order of an index.
pub open spec fn quad_tuple(order: QuadOrder, q: IdQuad) -> (u64, u64, u64, u64) {
    let g = q.graph_name->0;
    match order {
        QuadOrder::Spog => (q.subject, q.predicate, q.object, g),
        QuadOrder::Posg => (q.predicate, q.object, q.subject, g),
        QuadOrder::Ospg => (q.object, q.subject, q.predicate, g),
        QuadOrder::Gspo => (g, q.subject, q.predicate, q.object),
        QuadOrder::Gpos => (g, q.predicate, q.object, q.subject),
        QuadOrder::Gosp => (g, q.object, q.subject, q.predicate),
    }
}

/// The default-graph quads of triples in the order of an index.
fn default_quads(v: &Vec<(u64, u64, u64)>, order: TripleOrder) -> (r: Vec<IdQuad>)
    requires
        v@.no_duplicates(),
    ensures
        forall|q: IdQuad| #[trigger] r@.contains(q) <==> (q.graph_name is None && v@.contains(quad_triple(order, q))),
        r@.no_duplicates(),
{
    let mut r: Vec<IdQuad> = Vec::new();
    let mut i: usize = 0;
    while i < v.len()
        invariant
            i <= v@.len(),
            v@.no_duplicates(),
            r@.no_duplicates(),
            forall|q: IdQuad| #[trigger] r@.contains(q) <==> (q.graph_name is None && v@.take(i as int).contains(quad_triple(order, q))),
        decreases v.len() - i,
    {
        let t = v[i];
        let q = match order {
            TripleOrder::Spo => IdQuad { subject: t.0, predicate: t.1, object: t.2, graph_name: None },
            TripleOrder::Pos => IdQuad { subject: t.2, predicate: t.0, object: t.1, graph_name: None },
            TripleOrder::Osp => IdQuad { subject: t.1, predicate: t.2, object: t.0, graph_name: None },
        };
        assert(q == triple_quad(order, t) && quad_triple(order, q) == t);
        proof {
            lemma_take_not_contains(v@, i as int);
            lemma_push_no_dup(r@, q);
            assert forall|x: IdQuad| #[trigger] r@.push(q).contains(x) <==> (x.graph_name is None
                && v@.take(i + 1).contains(quad_triple(order, x))) by {
                lemma_take_next(v@, i as int, quad_triple(order, x));
            }
        }
        r.push(q);
        i = i + 1;
    }
    assert(v@.take(v@.len() as int) =~= v@);
    r
}

/// The named-graph quads of tuples in the order of an index.
fn named_quads(v: &Vec<(u64, u64, u64, u64)>, order: QuadOrder) -> (r: Vec<IdQuad>)
    requires
        v@.no_duplicates(),
    ensures
        forall|q: IdQuad| #[trigger] r@.contains(q) <==> (q.graph_name is Some && v@.contains(quad_tuple(order, q))),
        r@.no_duplicates(),
{
    let mut r: Vec<IdQuad> = Vec::new();
    let mut i: usize = 0;
    while i < v.len()
        invariant
            i <= v@.len(),
            v@.no_duplicates(),
            r@.no_duplicates(),
            forall|q: IdQuad| #[trigger] r@.contains(q) <==> (q.graph_name is Some && v@.take(i as int).contains(quad_tuple(order, q))),
        decreases v.len() - i,
    {
        let t = v[i];
        let q = match order {
            QuadOrder::Spog => IdQuad { subject: t.0, predicate: t.1, object: t.2, graph_name: Some(t.3) },
            QuadOrder::Posg => IdQuad { subject: t.2, predicate: t.0, object: t.1, graph_name: Some(t.3) },
            QuadOrder::Ospg => IdQuad { subject: t.1, predicate: t.2, object: t.0, graph_name: Some(t.3) },
            QuadOrder::Gspo => IdQuad { subject: t.1, predicate: t.2, object: t.3, graph_name: Some(t.0) },
            QuadOrder::Gpos => IdQuad { subject: t.3, predicate: t.1, object: t.2, graph_name: Some(t.0) },
            QuadOrder::Gosp => IdQuad { subject: t.2, predicate: t.3, object: t.1, graph_name: Some(t.0) },
        };
        assert(q == tuple_quad(order, t) && quad_tuple(order, q) == t);
        proof {
            lemma_take_not_contains(v@, i as int);
            lemma_push_no_dup(r@, q);
            assert forall|x: IdQuad| #[trigger] r@.push(q).contains(x) <==> (x.graph_name is Some
                && v@.take(i + 1).contains(quad_tuple(order, x))) by {
                lemma_take_next(v@, i as int, quad_tuple(order, x));
                if x.graph_name is Some && quad_tuple(order, x) == t {
                    assert(x == q);
                }
            }
        }
        r.push(q);
        i = i + 1;
    }
    assert(v@.take(v@.len() as int) =~= v@);
    r
}

/// Whether a quad of ids matches a pattern; a graph of `Some(None)` asks for
/// the default graph.
pub open spec fn id_matches(
    q: IdQuad,
    s: Option<u64>,
    p: Option<u64>,
    o: Option<u64>,
    g: Option<Option<u64>>,
) -> bool {
    &&& s matches Some(x) ==> q.subject == x
    &&& p matches Some(x) ==> q.predicate == x
    &&& o matches Some(x) ==> q.object == x
    &&& g matches Some(x) ==> q.graph_name == x
}

/// The quads of ids, each once, that the indexes hold and the pattern
/// matches.
pub open spec fn answers(
    r: Seq<IdQuad>,
    idx: MemoryStoreIndexes,
    s: Option<u64>,
    p: Option<u64>,
    o: Option<u64>,
    g: Option<Option<u64>>,
) -> bool {
    &&& forall|q: IdQuad| #[trigger] r.contains(q) <==> (idx.holds(q) && id_matches(q, s, p, o, g))
    &&& r.no_duplicates()
}

/// Both parts, the default-graph one first.
fn concat_answers(a: Vec<IdQuad>, b: Vec<IdQuad>) -> (r: Vec<IdQuad>)
    requires
        a@.no_duplicates(),
        b@.no_duplicates(),
        forall|q: IdQuad| #[trigger] a@.contains(q) ==> q.graph_name is None,
        forall|q: IdQuad| #[trigger] b@.contains(q) ==> q.graph_name is Some,
    ensures
        forall|q: IdQuad| #[trigger] r@.contains(q) <==> (a@.contains(q) || b@.contains(q)),
        r@.no_duplicates(),
{
    let mut r = a;
    let mut b = b;
    let ghost ra = r@;
    let ghost rb = b@;
    r.append(&mut b);
    proof {
        assert(r@ == ra + rb);
        assert forall|q: IdQuad| #[trigger] r@.contains(q) <==> (ra.contains(q) || rb.contains(q)) by {
            if r@.contains(q) {
                let w = choose|w: int| 0 <= w < r@.len() && r@[w] == q;
                if w < ra.len() {
                    assert(ra[w] == q);
                } else {
                    assert(rb[w - ra.len()] == q);
                }
            }
            if ra.contains(q) {
                let w = choose|w: int| 0 <= w < ra.len() && ra[w] == q;
                assert(r@[w] == q);
            }
            if rb.contains(q) {
                let w = choose|w: int| 0 <= w < rb.len() && rb[w] == q;
                assert(r@[w + ra.len()] == q);
            }
        }
        assert forall|x: int, y: int| 0 <= x < y < r@.len() implies r@[x] != r@[y] by {
            if y < ra.len() {
                assert(r@[x] == ra[x] && r@[y] == ra[y]);
            } else if x >= ra.len() {
                assert(r@[x] == rb[x - ra.len()] && r@[y] == rb[y - ra.len()]);
            } else {
                assert(r@[x] == ra[x] && ra.contains(ra[x]));
                assert(r@[y] == rb[y - ra.len()] && rb.contains(rb[y - ra.len()]));
            }
        }
    }
    r
}

/// The quads of ids in every order that queries need: subject, predicate,
/// object and graph first, for the named graphs; subject, predicate and
/// object first, for the default graph.
pub struct MemoryStoreIndexes {
    spog: QuadMap,
    posg: QuadMap,
    ospg: QuadMap,
    gspo: QuadMap,
    gpos: QuadMap,
    gosp: QuadMap,
    default_spo: TripleMap,
    default_pos: TripleMap,
    default_osp: TripleMap,
}

impl MemoryStoreIndexes {
    /// The triples of the default graph, as subject, predicate, object.
    pub closed spec fn default_triples(&self) -> Set<(u64, u64, u64)> {
        triples_of(self.default_spo)
    }

    /// The quads of the named graphs, as subject, predicate, object, graph.
    pub closed spec fn named_quads(&self) -> Set<(u64, u64, u64, u64)> {
        quad_set_of(self.spog)
    }

    /// Whether the quad is held.
    pub open spec fn holds(&self, q: IdQuad) -> bool {
        match q.graph_name {
            None => self.default_triples().contains((q.subject, q.predicate, q.object)),
            Some(g) => self.named_quads().contains((q.subject, q.predicate, q.object, g)),
        }
    }

    /// Every index holds the same quads, in its own order, and no map or set
    /// inside is empty.
    pub closed spec fn wf(&self) -> bool {
        &&& triple_map_wf(self.default_spo) && triple_map_wf(self.default_pos)
        &&& triple_map_wf(self.default_osp)
        &&& quad_map_wf(self.spog) && quad_map_wf(self.posg) && quad_map_wf(self.ospg)
        &&& quad_map_wf(self.gspo) && quad_map_wf(self.gpos) && quad_map_wf(self.gosp)
        &&& forall|t: (u64, u64, u64)| #[trigger] triples_of(self.default_pos).contains(t)
            == triples_of(self.default_spo).contains((t.2, t.0, t.1))
        &&& forall|t: (u64, u64, u64)| #[trigger] triples_of(self.default_osp).contains(t)
            == triples_of(self.default_spo).contains((t.1, t.2, t.0))
        &&& forall|t: (u64, u64, u64, u64)| #[trigger] quad_set_of(self.posg).contains(t)
            == quad_set_of(self.spog).contains((t.2, t.0, t.1, t.3))
        &&& forall|t: (u64, u64, u64, u64)| #[trigger] quad_set_of(self.ospg).contains(t)
            == quad_set_of(self.spog).contains((t.1, t.2, t.0, t.3))
        &&& forall|t: (u64, u64, u64, u64)| #[trigger] quad_set_of(self.gspo).contains(t)
            == quad_set_of(self.spog).contains((t.1, t.2, t.3, t.0))
        &&& forall|t: (u64, u64, u64, u64)| #[trigger] quad_set_of(self.gpos).contains(t)
            == quad_set_of(self.spog).contains((t.3, t.1, t.2, t.0))
        &&& forall|t: (u64, u64, u64, u64)| #[trigger] quad_set_of(self.gosp).contains(t)
            == quad_set_of(self.spog).contains((t.2, t.3, t.1, t.0))
    }

    /// Indexes of no quad.
    pub fn new() -> (r: Self)
        ensures
            r.wf(),
            r.default_triples() == Set::<(u64, u64, u64)>::empty(),
            r.named_quads() == Set::<(u64, u64, u64, u64)>::empty(),
    {
        let r = MemoryStoreIndexes {
            spog: HashMap::new(),
            posg: HashMap::new(),
            ospg: HashMap::new(),
            gspo: HashMap::new(),
            gpos: HashMap::new(),
            gosp: HashMap::new(),
            default_spo: HashMap::new(),
            default_pos: HashMap::new(),
            default_osp: HashMap::new(),
        };
        assert(triples_of(r.default_spo) =~= Set::empty());
        assert(triples_of(r.default_pos) =~= Set::empty());
        assert(triples_of(r.default_osp) =~= Set::empty());
        assert(quad_set_of(r.spog) =~= Set::empty());
        assert(quad_set_of(r.posg) =~= Set::empty());
        assert(quad_set_of(r.ospg) =~= Set::empty());
        assert(quad_set_of(r.gspo) =~= Set::empty());
        assert(quad_set_of(r.gpos) =~= Set::empty());
        assert(quad_set_of(r.gosp) =~= Set::empty());
        r
    }

    /// Adds a quad to every index.
    pub fn insert_encoded(&mut self, quad: &IdQuad)
        requires
            old(self).wf(),
        ensures
            final(self).wf(),
            forall|q: IdQuad| #[trigger] final(self).holds(q) == (old(self).holds(q) || q == *quad),
    {
        let ghost old_self = *self;
        match quad.graph_name {
            None => {
                insert_into_triple_map(&mut self.default_spo, quad.subject, quad.predicate, quad.object);
                insert_into_triple_map(&mut self.default_pos, quad.predicate, quad.object, quad.subject);
                insert_into_triple_map(&mut self.default_osp, quad.object, quad.subject, quad.predicate);
            },
            Some(g) => {
                insert_into_quad_map(&mut self.gspo, g, quad.subject, quad.predicate, quad.object);
                insert_into_quad_map(&mut self.gpos, g, quad.predicate, quad.object, quad.subject);
                insert_into_quad_map(&mut self.gosp, g, quad.object, quad.subject, quad.predicate);
                insert_into_quad_map(&mut self.spog, quad.subject, quad.predicate, quad.object, g);
                insert_into_quad_map(&mut self.posg, quad.predicate, quad.object, quad.subject, g);
                insert_into_quad_map(&mut self.ospg, quad.object, quad.subject, quad.predicate, g);
            },
        }
    }

    /// Removes a quad from every index.
    pub fn remove_encoded(&mut self, quad: &IdQuad)
        requires
            old(self).wf(),
        ensures
            final(self).wf(),
            forall|q: IdQuad| #[trigger] final(self).holds(q) == (old(self).holds(q) && q != *quad),
    {
        let ghost old_self = *self;
        match quad.graph_name {
            None => {
                remove_from_triple_map(&mut self.default_spo, quad.subject, quad.predicate, quad.object);
                remove_from_triple_map(&mut self.default_pos, quad.predicate, quad.object, quad.subject);
                remove_from_triple_map(&mut self.default_osp, quad.object, quad.subject, quad.predicate);
            },
            Some(g) => {
                remove_from_quad_map(&mut self.gspo, g, quad.subject, quad.predicate, quad.object);
                remove_from_quad_map(&mut self.gpos, g, quad.predicate, quad.object, quad.subject);
                remove_from_quad_map(&mut self.gosp, g, quad.object, quad.subject, quad.predicate);
                remove_from_quad_map(&mut self.spog, quad.subject, quad.predicate, quad.object, g);
                remove_from_quad_map(&mut self.posg, quad.predicate, quad.object, quad.subject, g);
                remove_from_quad_map(&mut self.ospg, quad.object, quad.subject, quad.predicate, g);
            },
        }
    }

    /// Whether the quad is held.
    pub fn contains_encoded(&self, quad: &IdQuad) -> (r: bool)
        requires
            self.wf(),
        ensures
            r == self.holds(*quad),
    {
        match quad.graph_name {
            None => match self.default_spo.get(&quad.subject) {
                Some(po) => match po.get(&quad.predicate) {
                    Some(o) => o.contains(&quad.object),
                    None => false,
                },
                None => false,
            },
            Some(g) => match self.spog.get(&quad.subject) {
                Some(pog) => match pog.get(&quad.predicate) {
                    Some(og) => match og.get(&quad.object) {
                        Some(gs) => gs.contains(&g),
                        None => false,
                    },
                    None => false,
                },
                None => false,
            },
        }
    }
}


fn get2(m: &TripleMap, a: u64, b: u64) -> (r: Option<&HashSet<u64>>)
    ensures
        r matches Some(x) ==> m@.contains_key(a) && m@[a]@.contains_key(b) && *x == m@[a]@[b],
        r is None ==> !(m@.contains_key(a) && m@[a]@.contains_key(b)),
{
    match m.get(&a) {
        Some(x) => x.get(&b),
        None => None,
    }
}

fn qget2(m: &QuadMap, a: u64, b: u64) -> (r: Option<&HashMap<u64, HashSet<u64>>>)
    ensures
        r matches Some(x) ==> m@.contains_key(a) && m@[a]@.contains_key(b) && *x == m@[a]@[b],
        r is None ==> !(m@.contains_key(a) && m@[a]@.contains_key(b)),
{
    match m.get(&a) {
        Some(x) => x.get(&b),
        None => None,
    }
}

fn qget3(m: &QuadMap, a: u64, b: u64, c: u64) -> (r: Option<&HashSet<u64>>)
    ensures
        r matches Some(x) ==> m@.contains_key(a) && m@[a]@.contains_key(b) && m@[a]@[b]@.contains_key(c)
            && *x == m@[a]@[b]@[c],
        r is None ==> !(m@.contains_key(a) && m@[a]@.contains_key(b) && m@[a]@[b]@.contains_key(c)),
{
    match qget2(m, a, b) {
        Some(x) => x.get(&c),
        None => None,
    }
}

/// The default-graph quads, each once, that the indexes hold and the
/// pattern matches.
pub open spec fn default_answers(
    r: Seq<IdQuad>,
    idx: MemoryStoreIndexes,
    s: Option<u64>,
    p: Option<u64>,
    o: Option<u64>,
) -> bool {
    &&& forall|q: IdQuad| #[trigger] r.contains(q) <==> (q.graph_name is None && idx.holds(q) && id_matches(q, s, p, o, None))
    &&& r.no_duplicates()
}

/// The named-graph quads, each once, that the indexes hold and the pattern
/// matches.
pub open spec fn named_answers(
    r: Seq<IdQuad>,
    idx: MemoryStoreIndexes,
    s: Option<u64>,
    p: Option<u64>,
    o: Option<u64>,
    g: Option<u64>,
) -> bool {
    &&& forall|q: IdQuad| #[trigger] r.contains(q) <==> (q.graph_name is Some && idx.holds(q) && id_matches(
        q,
        s,
        p,
        o,
        match g {
            Some(x) => Some(Some(x)),
            None => None,
        },
    ))
    &&& r.no_duplicates()
}

impl MemoryStoreIndexes {
    fn default_all(&self) -> (r: Vec<IdQuad>)
        requires
            self.wf(),
        ensures
            default_answers(r@, *self, None, None, None),
    {
        default_quads(&triple_map_flatten(&self.default_spo), TripleOrder::Spo)
    }

    fn default_s(&self, s: u64) -> (r: Vec<IdQuad>)
        requires
            self.wf(),
        ensures
            default_answers(r@, *self, Some(s), None, None),
    {
        default_quads(&prefix_pairs(s, &option_pair_map_flatten(self.default_spo.get(&s))), TripleOrder::Spo)
    }

    fn default_sp(&self, s: u64, p: u64) -> (r: Vec<IdQuad>)
        requires
            self.wf(),
        ensures
            default_answers(r@, *self, Some(s), Some(p), None),
    {
        default_quads(&prefix_elements(s, p, &option_set_flatten(get2(&self.default_spo, s, p))), TripleOrder::Spo)
    }

    fn default_so(&self, s: u64, o: u64) -> (r: Vec<IdQuad>)
        requires
            self.wf(),
        ensures
            default_answers(r@, *self, Some(s), None, Some(o)),
    {
        let r = default_quads(&prefix_elements(o, s, &option_set_flatten(get2(&self.default_osp, o, s))), TripleOrder::Osp);
        proof {
            assert forall|q: IdQuad| #[trigger] r@.contains(q) <==> (q.graph_name is None && self.holds(q)
                && id_matches(q, Some(s), None, Some(o), None)) by {
                let t = quad_triple(TripleOrder::Osp, q);
                assert(triples_of(self.default_osp).contains(t) == triples_of(self.default_spo).contains(
                    (q.subject, q.predicate, q.object)));
            }
        }
        r
    }

    fn default_p(&self, p: u64) -> (r: Vec<IdQuad>)
        requires
            self.wf(),
        ensures
            default_answers(r@, *self, None, Some(p), None),
    {
        let r = default_quads(&prefix_pairs(p, &option_pair_map_flatten(self.default_pos.get(&p))), TripleOrder::Pos);
        proof {
            assert forall|q: IdQuad| #[trigger] r@.contains(q) <==> (q.graph_name is None && self.holds(q)
                && id_matches(q, None, Some(p), None, None)) by {
                let t = quad_triple(TripleOrder::Pos, q);
                assert(triples_of(self.default_pos).contains(t) == triples_of(self.default_spo).contains(
                    (q.subject, q.predicate, q.object)));
            }
        }
        r
    }

    fn default_po(&self, p: u64, o: u64) -> (r: Vec<IdQuad>)
        requires
            self.wf(),
        ensures
            default_answers(r@, *self, None, Some(p), Some(o)),
    {
        let r = default_quads(&prefix_elements(p, o, &option_set_flatten(get2(&self.default_pos, p, o))), TripleOrder::Pos);
        proof {
            assert forall|q: IdQuad| #[trigger] r@.contains(q) <==> (q.graph_name is None && self.holds(q)
                && id_matches(q, None, Some(p), Some(o), None)) by {
                let t = quad_triple(TripleOrder::Pos, q);
                assert(triples_of(self.default_pos).contains(t) == triples_of(self.default_spo).contains(
                    (q.subject, q.predicate, q.object)));
            }
        }
        r
    }

    fn default_o(&self, o: u64) -> (r: Vec<IdQuad>)
        requires
            self.wf(),
        ensures
            default_answers(r@, *self, None, None, Some(o)),
    {
        let r = default_quads(&prefix_pairs(o, &option_pair_map_flatten(self.default_osp.get(&o))), TripleOrder::Osp);
        proof {
            assert forall|q: IdQuad| #[trigger] r@.contains(q) <==> (q.graph_name is None && self.holds(q)
                && id_matches(q, None, None, Some(o), None)) by {
                let t = quad_triple(TripleOrder::Osp, q);
                assert(triples_of(self.default_osp).contains(t) == triples_of(self.default_spo).contains(
                    (q.subject, q.predicate, q.object)));
            }
        }
        r
    }

    fn default_spo(&self, s: u64, p: u64, o: u64) -> (r: Vec<IdQuad>)
        requires
            self.wf(),
        ensures
            default_answers(r@, *self, Some(s), Some(p), Some(o)),
    {
        let q = IdQuad { subject: s, predicate: p, object: o, graph_name: None };
        let mut r: Vec<IdQuad> = Vec::new();
        if self.contains_encoded(&q) {
            r.push(q);
            assert forall|x: IdQuad| #[trigger] r@.contains(x) <==> x == q by {
                if r@.contains(x) {
                    assert(r@[0] == x);
                }
                if x == q {
                    assert(r@[0] == x);
                }
            }
        }
        r
    }

    fn named_all(&self) -> (r: Vec<IdQuad>)
        requires
            self.wf(),
        ensures
            named_answers(r@, *self, None, None, None, None),
    {
        named_quads(&quad_map_flatten(&self.gspo), QuadOrder::Gspo)
    }

    fn named_s(&self, s: u64) -> (r: Vec<IdQuad>)
        requires
            self.wf(),
        ensures
            named_answers(r@, *self, Some(s), None, None, None),
    {
        named_quads(&prefix_triples(s, &option_triple_map_flatten(self.spog.get(&s))), QuadOrder::Spog)
    }

    fn named_sp(&self, s: u64, p: u64) -> (r: Vec<IdQuad>)
        requires
            self.wf(),
        ensures
            named_answers(r@, *self, Some(s), Some(p), None, None),
    {
        named_quads(&prefix2_pairs(s, p, &option_pair_map_flatten(qget2(&self.spog, s, p))), QuadOrder::Spog)
    }

    fn named_spo(&self, s: u64, p: u64, o: u64) -> (r: Vec<IdQuad>)
        requires
            self.wf(),
        ensures
            named_answers(r@, *self, Some(s), Some(p), Some(o), None),
    {
        named_quads(&prefix3_elements(s, p, o, &option_set_flatten(qget3(&self.spog, s, p, o))), QuadOrder::Spog)
    }

    fn named_so(&self, s: u64, o: u64) -> (r: Vec<IdQuad>)
        requires
            self.wf(),
        ensures
            named_answers(r@, *self, Some(s), None, Some(o), None),
    {
        let r = named_quads(&prefix2_pairs(o, s, &option_pair_map_flatten(qget2(&self.ospg, o, s))), QuadOrder::Ospg);
        proof {
            assert forall|q: IdQuad| #[trigger] r@.contains(q) <==> (q.graph_name is Some && self.holds(q)
                && id_matches(q, Some(s), None, Some(o), None)) by {
                let t = quad_tuple(QuadOrder::Ospg, q);
                if q.graph_name is Some {
                    assert(quad_set_of(self.ospg).contains(t) == quad_set_of(self.spog).contains(
                        (q.subject, q.predicate, q.object, q.graph_name->0)));
                }
            }
        }
        r
    }

    fn named_p(&self, p: u64) -> (r: Vec<IdQuad>)
        requires
            self.wf(),
        ensures
            named_answers(r@, *self, None, Some(p), None, None),
    {
        let r = named_quads(&prefix_triples(p, &option_triple_map_flatten(self.posg.get(&p))), QuadOrder::Posg);
        proof {
            assert forall|q: IdQuad| #[trigger] r@.contains(q) <==> (q.graph_name is Some && self.holds(q)
                && id_matches(q, None, Some(p), None, None)) by {
                let t = quad_tuple(QuadOrder::Posg, q);
                if q.graph_name is Some {
                    assert(quad_set_of(self.posg).contains(t) == quad_set_of(self.spog).contains(
                        (q.subject, q.predicate, q.object, q.graph_name->0)));
                }
            }
        }
        r
    }

    fn named_po(&self, p: u64, o: u64) -> (r: Vec<IdQuad>)
        requires
            self.wf(),
        ensures
            named_answers(r@, *self, None, Some(p), Some(o), None),
    {
        let r = named_quads(&prefix2_pairs(p, o, &option_pair_map_flatten(qget2(&self.posg, p, o))), QuadOrder::Posg);
        proof {
            assert forall|q: IdQuad| #[trigger] r@.contains(q) <==> (q.graph_name is Some && self.holds(q)
                && id_matches(q, None, Some(p), Some(o), None)) by {
                let t = quad_tuple(QuadOrder::Posg, q);
                if q.graph_name is Some {
                    assert(quad_set_of(self.posg).contains(t) == quad_set_of(self.spog).contains(
                        (q.subject, q.predicate, q.object, q.graph_name->0)));
                }
            }
        }
        r
    }

    fn named_o(&self, o: u64) -> (r: Vec<IdQuad>)
        requires
            self.wf(),
        ensures
            named_answers(r@, *self, None, None, Some(o), None),
    {
        let r = named_quads(&prefix_triples(o, &option_triple_map_flatten(self.ospg.get(&o))), QuadOrder::Ospg);
        proof {
            assert forall|q: IdQuad| #[trigger] r@.contains(q) <==> (q.graph_name is Some && self.holds(q)
                && id_matches(q, None, None, Some(o), None)) by {
                let t = quad_tuple(QuadOrder::Ospg, q);
                if q.graph_name is Some {
                    assert(quad_set_of(self.ospg).contains(t) == quad_set_of(self.spog).contains(
                        (q.subject, q.predicate, q.object, q.graph_name->0)));
                }
            }
        }
        r
    }

    fn named_g(&self, g: u64) -> (r: Vec<IdQuad>)
        requires
            self.wf(),
        ensures
            named_answers(r@, *self, None, None, None, Some(g)),
    {
        let r = named_quads(&prefix_triples(g, &option_triple_map_flatten(self.gspo.get(&g))), QuadOrder::Gspo);
        proof {
            assert forall|q: IdQuad| #[trigger] r@.contains(q) <==> (q.graph_name is Some && self.holds(q)
                && id_matches(q, None, None, None, Some(Some(g)))) by {
                let t = quad_tuple(QuadOrder::Gspo, q);
                if q.graph_name is Some {
                    assert(quad_set_of(self.gspo).contains(t) == quad_set_of(self.spog).contains(
                        (q.subject, q.predicate, q.object, q.graph_name->0)));
                }
            }
        }
        r
    }

    fn named_sg(&self, s: u64, g: u64) -> (r: Vec<IdQuad>)
        requires
            self.wf(),
        ensures
            named_answers(r@, *self, Some(s), None, None, Some(g)),
    {
        let r = named_quads(&prefix2_pairs(g, s, &option_pair_map_flatten(qget2(&self.gspo, g, s))), QuadOrder::Gspo);
        proof {
            assert forall|q: IdQuad| #[trigger] r@.contains(q) <==> (q.graph_name is Some && self.holds(q)
                && id_matches(q, Some(s), None, None, Some(Some(g)))) by {
                let t = quad_tuple(QuadOrder::Gspo, q);
                if q.graph_name is Some {
                    assert(quad_set_of(self.gspo).contains(t) == quad_set_of(self.spog).contains(
                        (q.subject, q.predicate, q.object, q.graph_name->0)));
                }
            }
        }
        r
    }

    fn named_spg(&self, s: u64, p: u64, g: u64) -> (r: Vec<IdQuad>)
        requires
            self.wf(),
        ensures
            named_answers(r@, *self, Some(s), Some(p), None, Some(g)),
    {
        let r = named_quads(&prefix3_elements(g, s, p, &option_set_flatten(qget3(&self.gspo, g, s, p))), QuadOrder::Gspo);
        proof {
            assert forall|q: IdQuad| #[trigger] r@.contains(q) <==> (q.graph_name is Some && self.holds(q)
                && id_matches(q, Some(s), Some(p), None, Some(Some(g)))) by {
                let t = quad_tuple(QuadOrder::Gspo, q);
                if q.graph_name is Some {
                    assert(quad_set_of(self.gspo).contains(t) == quad_set_of(self.spog).contains(
                        (q.subject, q.predicate, q.object, q.graph_name->0)));
                }
            }
        }
        r
    }

    fn named_sog(&self, s: u64, o: u64, g: u64) -> (r: Vec<IdQuad>)
        requires
            self.wf(),
        ensures
            named_answers(r@, *self, Some(s), None, Some(o), Some(g)),
    {
        let r = named_quads(&prefix3_elements(g, o, s, &option_set_flatten(qget3(&self.gosp, g, o, s))), QuadOrder::Gosp);
        proof {
            assert forall|q: IdQuad| #[trigger] r@.contains(q) <==> (q.graph_name is Some && self.holds(q)
                && id_matches(q, Some(s), None, Some(o), Some(Some(g)))) by {
                let t = quad_tuple(QuadOrder::Gosp, q);
                if q.graph_name is Some {
                    assert(quad_set_of(self.gosp).contains(t) == quad_set_of(self.spog).contains(
                        (q.subject, q.predicate, q.object, q.graph_name->0)));
                }
            }
        }
        r
    }

    fn named_pg(&self, p: u64, g: u64) -> (r: Vec<IdQuad>)
        requires
            self.wf(),
        ensures
            named_answers(r@, *self, None, Some(p), None, Some(g)),
    {
        let r = named_quads(&prefix2_pairs(g, p, &option_pair_map_flatten(qget2(&self.gpos, g, p))), QuadOrder::Gpos);
        proof {
            assert forall|q: IdQuad| #[trigger] r@.contains(q) <==> (q.graph_name is Some && self.holds(q)
                && id_matches(q, None, Some(p), None, Some(Some(g)))) by {
                let t = quad_tuple(QuadOrder::Gpos, q);
                if q.graph_name is Some {
                    assert(quad_set_of(self.gpos).contains(t) == quad_set_of(self.spog).contains(
                        (q.subject, q.predicate, q.object, q.graph_name->0)));
                }
            }
        }
        r
    }

    fn named_pog(&self, p: u64, o: u64, g: u64) -> (r: Vec<IdQuad>)
        requires
            self.wf(),
        ensures
            named_answers(r@, *self, None, Some(p), Some(o), Some(g)),
    {
        let r = named_quads(&prefix3_elements(g, p, o, &option_set_flatten(qget3(&self.gpos, g, p, o))), QuadOrder::Gpos);
        proof {
            assert forall|q: IdQuad| #[trigger] r@.contains(q) <==> (q.graph_name is Some && self.holds(q)
                && id_matches(q, None, Some(p), Some(o), Some(Some(g)))) by {
                let t = quad_tuple(QuadOrder::Gpos, q);
                if q.graph_name is Some {
                    assert(quad_set_of(self.gpos).contains(t) == quad_set_of(self.spog).contains(
                        (q.subject, q.predicate, q.object, q.graph_name->0)));
                }
            }
        }
        r
    }

    fn named_og(&self, o: u64, g: u64) -> (r: Vec<IdQuad>)
        requires
            self.wf(),
        ensures
            named_answers(r@, *self, None, None, Some(o), Some(g)),
    {
        let r = named_quads(&prefix2_pairs(g, o, &option_pair_map_flatten(qget2(&self.gosp, g, o))), QuadOrder::Gosp);
        proof {
            assert forall|q: IdQuad| #[trigger] r@.contains(q) <==> (q.graph_name is Some && self.holds(q)
                && id_matches(q, None, None, Some(o), Some(Some(g)))) by {
                let t = quad_tuple(QuadOrder::Gosp, q);
                if q.graph_name is Some {
                    assert(quad_set_of(self.gosp).contains(t) == quad_set_of(self.spog).contains(
                        (q.subject, q.predicate, q.object, q.graph_name->0)));
                }
            }
        }
        r
    }
}


impl MemoryStoreIndexes {
    /// Every quad held.
    pub fn encoded_quads(&self) -> (r: Vec<IdQuad>)
        requires
            self.wf(),
        ensures
            answers(r@, *self, None, None, None, None),
    {
        concat_answers(self.default_all(), self.named_all())
    }

    /// The quads of a subject.
    pub fn encoded_quads_for_subject(&self, subject: u64) -> (r: Vec<IdQuad>)
        requires
            self.wf(),
        ensures
            answers(r@, *self, Some(subject), None, None, None),
    {
        concat_answers(self.default_s(subject), self.named_s(subject))
    }

    /// The quads of a subject and predicate.
    pub fn encoded_quads_for_subject_predicate(&self, subject: u64, predicate: u64) -> (r: Vec<IdQuad>)
        requires
            self.wf(),
        ensures
            answers(r@, *self, Some(subject), Some(predicate), None, None),
    {
        concat_answers(self.default_sp(subject, predicate), self.named_sp(subject, predicate))
    }

    /// The quads of a triple, in any graph.
    pub fn encoded_quads_for_subject_predicate_object(&self, subject: u64, predicate: u64, object: u64) -> (r: Vec<IdQuad>)
        requires
            self.wf(),
        ensures
            answers(r@, *self, Some(subject), Some(predicate), Some(object), None),
    {
        concat_answers(self.default_spo(subject, predicate, object), self.named_spo(subject, predicate, object))
    }

    /// The quads of a subject and object.
    pub fn encoded_quads_for_subject_object(&self, subject: u64, object: u64) -> (r: Vec<IdQuad>)
        requires
            self.wf(),
        ensures
            answers(r@, *self, Some(subject), None, Some(object), None),
    {
        concat_answers(self.default_so(subject, object), self.named_so(subject, object))
    }

    /// The quads of a predicate.
    pub fn encoded_quads_for_predicate(&self, predicate: u64) -> (r: Vec<IdQuad>)
        requires
            self.wf(),
        ensures
            answers(r@, *self, None, Some(predicate), None, None),
    {
        concat_answers(self.default_p(predicate), self.named_p(predicate))
    }

    /// The quads of a predicate and object.
    pub fn encoded_quads_for_predicate_object(&self, predicate: u64, object: u64) -> (r: Vec<IdQuad>)
        requires
            self.wf(),
        ensures
            answers(r@, *self, None, Some(predicate), Some(object), None),
    {
        concat_answers(self.default_po(predicate, object), self.named_po(predicate, object))
    }

    /// The quads of an object.
    pub fn encoded_quads_for_object(&self, object: u64) -> (r: Vec<IdQuad>)
        requires
            self.wf(),
        ensures
            answers(r@, *self, None, None, Some(object), None),
    {
        concat_answers(self.default_o(object), self.named_o(object))
    }

    /// The quads of a graph; `None` is the default graph.
    pub fn encoded_quads_for_graph(&self, graph_name: Option<u64>) -> (r: Vec<IdQuad>)
        requires
            self.wf(),
        ensures
            answers(r@, *self, None, None, None, Some(graph_name)),
    {
        match graph_name {
            None => self.default_all(),
            Some(g) => self.named_g(g),
        }
    }

    /// The quads of a subject in a graph.
    pub fn encoded_quads_for_subject_graph(&self, subject: u64, graph_name: Option<u64>) -> (r: Vec<IdQuad>)
        requires
            self.wf(),
        ensures
            answers(r@, *self, Some(subject), None, None, Some(graph_name)),
    {
        match graph_name {
            None => self.default_s(subject),
            Some(g) => self.named_sg(subject, g),
        }
    }

    /// The quads of a subject and predicate in a graph.
    pub fn encoded_quads_for_subject_predicate_graph(&self, subject: u64, predicate: u64, graph_name: Option<u64>) -> (r: Vec<IdQuad>)
        requires
            self.wf(),
        ensures
            answers(r@, *self, Some(subject), Some(predicate), None, Some(graph_name)),
    {
        match graph_name {
            None => self.default_sp(subject, predicate),
            Some(g) => self.named_spg(subject, predicate, g),
        }
    }

    /// The quads of a subject and object in a graph.
    pub fn encoded_quads_for_subject_object_graph(&self, subject: u64, object: u64, graph_name: Option<u64>) -> (r: Vec<IdQuad>)
        requires
            self.wf(),
        ensures
            answers(r@, *self, Some(subject), None, Some(object), Some(graph_name)),
    {
        match graph_name {
            None => self.default_so(subject, object),
            Some(g) => self.named_sog(subject, object, g),
        }
    }

    /// The quads of a predicate in a graph.
    pub fn encoded_quads_for_predicate_graph(&self, predicate: u64, graph_name: Option<u64>) -> (r: Vec<IdQuad>)
        requires
            self.wf(),
        ensures
            answers(r@, *self, None, Some(predicate), None, Some(graph_name)),
    {
        match graph_name {
            None => self.default_p(predicate),
            Some(g) => self.named_pg(predicate, g),
        }
    }

    /// The quads of a predicate and object in a graph.
    pub fn encoded_quads_for_predicate_object_graph(&self, predicate: u64, object: u64, graph_name: Option<u64>) -> (r: Vec<IdQuad>)
        requires
            self.wf(),
        ensures
            answers(r@, *self, None, Some(predicate), Some(object), Some(graph_name)),
    {
        match graph_name {
            None => self.default_po(predicate, object),
            Some(g) => self.named_pog(predicate, object, g),
        }
    }

    /// The quads of an object in a graph.
    pub fn encoded_quads_for_object_graph(&self, object: u64, graph_name: Option<u64>) -> (r: Vec<IdQuad>)
        requires
            self.wf(),
        ensures
            answers(r@, *self, None, None, Some(object), Some(graph_name)),
    {
        match graph_name {
            None => self.default_o(object),
            Some(g) => self.named_og(object, g),
        }
    }

    /// The quads that a pattern matches: each component given or not; a
    /// graph of `Some(None)` is the default graph.
    pub fn encoded_quads_for_pattern_inner(
        &self,
        subject: Option<u64>,
        predicate: Option<u64>,
        object: Option<u64>,
        graph_name: Option<Option<u64>>,
    ) -> (r: Vec<IdQuad>)
        requires
            self.wf(),
        ensures
            answers(r@, *self, subject, predicate, object, graph_name),
    {
        match subject {
            Some(subject) => match predicate {
                Some(predicate) => match object {
                    Some(object) => match graph_name {
                        Some(graph_name) => {
                            let quad = IdQuad { subject, predicate, object, graph_name };
                            let mut r: Vec<IdQuad> = Vec::new();
                            if self.contains_encoded(&quad) {
                                r.push(quad);
                            }
                            assert forall|x: IdQuad| #[trigger] r@.contains(x) <==> (self.holds(x)
                                && x == quad) by {
                                if r@.contains(x) {
                                    assert(r@[0] == x);
                                }
                                if self.holds(x) && x == quad {
                                    assert(r@[0] == x);
                                }
                            }
                            r
                        },
                        None => self.encoded_quads_for_subject_predicate_object(subject, predicate, object),
                    },
                    None => match graph_name {
                        Some(graph_name) => self.encoded_quads_for_subject_predicate_graph(
                            subject,
                            predicate,
                            graph_name,
                        ),
                        None => self.encoded_quads_for_subject_predicate(subject, predicate),
                    },
                },
                None => match object {
                    Some(object) => match graph_name {
                        Some(graph_name) => self.encoded_quads_for_subject_object_graph(subject, object, graph_name),
                        None => self.encoded_quads_for_subject_object(subject, object),
                    },
                    None => match graph_name {
                        Some(graph_name) => self.encoded_quads_for_subject_graph(subject, graph_name),
                        None => self.encoded_quads_for_subject(subject),
                    },
                },
            },
            None => match predicate {
                Some(predicate) => match object {
                    Some(object) => match graph_name {
                        Some(graph_name) => self.encoded_quads_for_predicate_object_graph(predicate, object, graph_name),
                        None => self.encoded_quads_for_predicate_object(predicate, object),
                    },
                    None => match graph_name {
                        Some(graph_name) => self.encoded_quads_for_predicate_graph(predicate, graph_name),
                        None => self.encoded_quads_for_predicate(predicate),
                    },
                },
                None => match object {
                    Some(object) => match graph_name {
                        Some(graph_name) => self.encoded_quads_for_object_graph(object, graph_name),
                        None => self.encoded_quads_for_object(object),
                    },
                    None => match graph_name {
                        Some(graph_name) => self.encoded_quads_for_graph(graph_name),
                        None => self.encoded_quads(),
                    },
                },
            },
        }
    }
}

// ---------------------------------------------------------------------------
// The store

/// Two well-formed terms with the same serialization are the same term.
proof fn lemma_term_bytes_injective(a: EncodedTerm, b: EncodedTerm)
    requires
        term_wf(a),
        !(a is DefaultGraph),
        term_wf(b),
        !(b is DefaultGraph),
        term_bytes(a) == term_bytes(b),
    ensures
        a == b,
{
    lemma_term_roundtrip(a, Seq::empty());
    lemma_term_roundtrip(b, Seq::empty());
}

/// Whether a term can be interned: it is well formed and no default graph
/// marker.
pub open spec fn internable(t: EncodedTerm) -> bool {
    term_wf(t) && !(t is DefaultGraph)
}

/// The in-memory store: the terms it knows, each by an id, and the quads of
/// ids in every index.
pub struct MemoryStore {
    indexes: MemoryStoreIndexes,
    terms: Vec<EncodedTerm>,
    term_ids: Tree,
    id2str: Tree,
}

impl MemoryStore {
    /// Whether the term has an id.
    pub closed spec fn interned(&self, t: EncodedTerm) -> bool {
        exists|i: int| 0 <= i < self.terms@.len() && self.terms@[i] == t
    }

    /// The encoded quad that a quad of ids stands for.
    pub closed spec fn decode_ids(&self, q: IdQuad) -> EncodedQuad {
        EncodedQuad {
            subject: self.terms@[q.subject as int],
            predicate: self.terms@[q.predicate as int],
            object: self.terms@[q.object as int],
            graph_name: match q.graph_name {
                None => EncodedTerm::DefaultGraph,
                Some(g) => self.terms@[g as int],
            },
        }
    }

    /// Whether every id of the quad has a term.
    pub closed spec fn ids_known(&self, q: IdQuad) -> bool {
        &&& q.subject < self.terms@.len()
        &&& q.predicate < self.terms@.len()
        &&& q.object < self.terms@.len()
        &&& q.graph_name matches Some(g) ==> g < self.terms@.len()
    }

    /// The quads of the store.
    pub closed spec fn quads(&self) -> Set<EncodedQuad> {
        Set::new(|q: EncodedQuad| exists|iq: IdQuad| #[trigger] self.indexes.holds(iq) && self.decode_ids(iq) == q)
    }

    /// Every known term is well formed and found by its serialization; every
    /// serialization found is a known term's; every quad of ids has known
    /// ids and stands for a storable quad.
    pub closed spec fn wf(&self) -> bool {
        &&& self.indexes.wf()
        &&& self.term_ids.wf()
        &&& self.id2str.wf()
        &&& forall|k: Seq<u8>|
            #[trigger] self.id2str.view().contains_key(k) ==> valid_utf8(self.id2str.view()[k])
        &&& self.terms@.len() <= u64::MAX as int + 1
        &&& forall|i: int| 0 <= i < self.terms@.len() ==> {
            &&& internable(#[trigger] self.terms@[i])
            &&& self.term_ids.view().contains_key(term_bytes(self.terms@[i]))
            &&& self.term_ids.view()[term_bytes(self.terms@[i])] == u64_to_be(i as u64)
        }
        &&& forall|k: Seq<u8>| #[trigger] self.term_ids.view().contains_key(k) ==> exists|i: int|
            0 <= i < self.terms@.len() && k == term_bytes(#[trigger] self.terms@[i])
        &&& forall|iq: IdQuad| #[trigger] self.indexes.holds(iq) ==> self.ids_known(iq)
            && storable(self.decode_ids(iq))
    }

    proof fn lemma_ids_distinct(&self, i: int, j: int)
        requires
            self.wf(),
            0 <= i < self.terms@.len(),
            0 <= j < self.terms@.len(),
            self.terms@[i] == self.terms@[j],
        ensures
            i == j,
    {
        let a = self.terms@[i];
        assert(self.term_ids.view()[term_bytes(a)] == u64_to_be(i as u64));
        assert(self.term_ids.view()[term_bytes(self.terms@[j])] == u64_to_be(j as u64));
        lemma_u64_value_roundtrip(i as u64);
        lemma_u64_value_roundtrip(j as u64);
    }

    /// An empty store.
    pub fn new() -> (r: Self)
        ensures
            r.wf(),
            r.quads() == Set::<EncodedQuad>::empty(),
            r.strings() == Map::<StrHash, Seq<char>>::empty(),
    {
        let r = MemoryStore {
            indexes: MemoryStoreIndexes::new(),
            terms: Vec::new(),
            term_ids: Tree::new(),
            id2str: Tree::new(),
        };
        assert(r.quads() =~= Set::<EncodedQuad>::empty());
        assert(r.strings() =~= Map::<StrHash, Seq<char>>::empty());
        r
    }

    /// The id of a term, if it has one.
    fn lookup(&self, t: &EncodedTerm) -> (r: Option<u64>)
        requires
            self.wf(),
            internable(*t),
        ensures
            r matches Some(i) ==> i < self.terms@.len() && self.terms@[i as int] == *t,
            r is None ==> !self.interned(*t),
    {
        let bytes = encode_term(t);
        match self.term_ids.get(bytes.as_slice()) {
            Some(v) => {
                proof {
                    let i = choose|i: int| 0 <= i < self.terms@.len() && bytes@ == term_bytes(#[trigger] self.terms@[i]);
                    assert(v@ == u64_to_be(i as u64));
                    lemma_u64_value_roundtrip(i as u64);
                    lemma_term_bytes_injective(self.terms@[i], *t);
                }
                let a: [u8; 8] = [v[0], v[1], v[2], v[3], v[4], v[5], v[6], v[7]];
                assert(a@ =~= v@);
                Some(u64_from_be_bytes(a))
            },
            None => {
                proof {
                    if self.interned(*t) {
                        let i = choose|i: int| 0 <= i < self.terms@.len() && self.terms@[i] == *t;
                        assert(self.term_ids.view().contains_key(term_bytes(self.terms@[i])));
                    }
                }
                None
            },
        }
    }

    /// The id of a term, given one where it has none.
    fn intern(&mut self, t: &EncodedTerm) -> (r: u64)
        requires
            old(self).wf(),
            internable(*t),
        ensures
            final(self).wf(),
            r < final(self).terms@.len(),
            final(self).terms@[r as int] == *t,
            final(self).terms@.len() >= old(self).terms@.len(),
            forall|i: int| 0 <= i < old(self).terms@.len() ==> final(self).terms@[i] == old(self).terms@[i],
            final(self).indexes == old(self).indexes,
            final(self).quads() == old(self).quads(),
            final(self).id2str == old(self).id2str,
    {
        match self.lookup(t) {
            Some(i) => i,
            None => {
                let ghost old_self = *self;
                let n0 = self.terms.len();
                assert(n0 <= u64::MAX);
                let id = n0 as u64;
                let bytes = encode_term(t);
                let idb = u64_to_be_bytes(id);
                self.term_ids.insert(bytes.as_slice(), &idb);
                self.terms.push(t.clone());
                proof {
                    let n = old_self.terms@.len();
                    assert forall|i: int| 0 <= i < self.terms@.len() implies {
                        &&& internable(#[trigger] self.terms@[i])
                        &&& self.term_ids.view().contains_key(term_bytes(self.terms@[i]))
                        &&& self.term_ids.view()[term_bytes(self.terms@[i])] == u64_to_be(i as u64)
                    } by {
                        if i < n {
                            assert(self.terms@[i] == old_self.terms@[i]);
                            if term_bytes(old_self.terms@[i]) == bytes@ {
                                lemma_term_bytes_injective(old_self.terms@[i], *t);
                            }
                        }
                    }
                    assert forall|k: Seq<u8>| #[trigger] self.term_ids.view().contains_key(k) implies exists|i: int|
                        0 <= i < self.terms@.len() && k == term_bytes(#[trigger] self.terms@[i]) by {
                        if k == bytes@ {
                            assert(self.terms@[n as int] == *t);
                        } else {
                            let i = choose|i: int| 0 <= i < n && k == term_bytes(#[trigger] old_self.terms@[i]);
                            assert(self.terms@[i] == old_self.terms@[i]);
                        }
                    }
                    assert forall|iq: IdQuad| #[trigger] self.indexes.holds(iq) implies self.ids_known(iq)
                        && storable(self.decode_ids(iq)) by {
                        assert(old_self.ids_known(iq));
                        assert(self.decode_ids(iq) == old_self.decode_ids(iq));
                    }
                    assert forall|q: EncodedQuad| self.quads().contains(q) == old_self.quads().contains(q) by {
                        if self.quads().contains(q) {
                            let iq = choose|iq: IdQuad| #[trigger] self.indexes.holds(iq) && self.decode_ids(iq) == q;
                            assert(old_self.ids_known(iq));
                            assert(self.decode_ids(iq) == old_self.decode_ids(iq));
                        }
                        if old_self.quads().contains(q) {
                            let iq = choose|iq: IdQuad| #[trigger] old_self.indexes.holds(iq) && old_self.decode_ids(iq) == q;
                            assert(old_self.ids_known(iq));
                            assert(self.decode_ids(iq) == old_self.decode_ids(iq));
                        }
                    }
                    assert(self.quads() =~= old_self.quads());
                }
                id
            },
        }
    }
}

impl MemoryStoreIndexes {
    /// Whether no quad is held.
    pub fn is_empty(&self) -> (r: bool)
        requires
            self.wf(),
        ensures
            r == (forall|q: IdQuad| !#[trigger] self.holds(q)),
    {
        let r = self.default_spo.is_empty() && self.spog.is_empty();
        proof {
            if !self.default_spo@.is_empty() {
                let a = choose|a: u64| self.default_spo@.contains_key(a);
                assert(!self.default_spo@[a]@.is_empty());
                let b = choose|b: u64| self.default_spo@[a]@.contains_key(b);
                assert(!self.default_spo@[a]@[b]@.is_empty());
                let c = choose|c: u64| self.default_spo@[a]@[b]@.contains(c);
                assert(self.holds(IdQuad { subject: a, predicate: b, object: c, graph_name: None }));
            } else if !self.spog@.is_empty() {
                let a = choose|a: u64| self.spog@.contains_key(a);
                assert(!self.spog@[a]@.is_empty());
                let b = choose|b: u64| self.spog@[a]@.contains_key(b);
                assert(!self.spog@[a]@[b]@.is_empty());
                let c = choose|c: u64| self.spog@[a]@[b]@.contains_key(c);
                assert(!self.spog@[a]@[b]@[c]@.is_empty());
                let d = choose|d: u64| self.spog@[a]@[b]@[c]@.contains(d);
                assert(self.holds(IdQuad { subject: a, predicate: b, object: c, graph_name: Some(d) }));
            } else {
                assert forall|q: IdQuad| !#[trigger] self.holds(q) by {
                    match q.graph_name {
                        None => assert(!self.default_spo@.contains_key(q.subject)),
                        Some(g) => assert(!self.spog@.contains_key(q.subject)),
                    }
                }
            }
        }
        r
    }
}

/// Whether an encoded quad matches a pattern of encoded terms.
pub open spec fn quad_matches(
    q: EncodedQuad,
    s: Option<&EncodedTerm>,
    p: Option<&EncodedTerm>,
    o: Option<&EncodedTerm>,
    g: Option<&EncodedTerm>,
) -> bool {
    &&& s matches Some(t) ==> q.subject == *t
    &&& p matches Some(t) ==> q.predicate == *t
    &&& o matches Some(t) ==> q.object == *t
    &&& g matches Some(t) ==> q.graph_name == *t
}

impl MemoryStore {
    proof fn lemma_quad_storable(&self, q: EncodedQuad)
        requires
            self.wf(),
            self.quads().contains(q),
        ensures
            storable(q),
    {
        let iq = choose|iq: IdQuad| #[trigger] self.indexes.holds(iq) && self.decode_ids(iq) == q;
        assert(self.indexes.holds(iq));
    }

    proof fn lemma_decode_injective(&self, a: IdQuad, b: IdQuad)
        requires
            self.wf(),
            self.ids_known(a),
            self.ids_known(b),
            self.decode_ids(a) == self.decode_ids(b),
        ensures
            a == b,
    {
        self.lemma_ids_distinct(a.subject as int, b.subject as int);
        self.lemma_ids_distinct(a.predicate as int, b.predicate as int);
        self.lemma_ids_distinct(a.object as int, b.object as int);
        match (a.graph_name, b.graph_name) {
            (Some(x), Some(y)) => self.lemma_ids_distinct(x as int, y as int),
            (Some(x), None) => assert(internable(self.terms@[x as int])),
            (None, Some(y)) => assert(internable(self.terms@[y as int])),
            (None, None) => {},
        }
    }

    /// Adds a quad.
    pub fn insert_encoded(&mut self, quad: &EncodedQuad)
        requires
            old(self).wf(),
            storable(*quad),
        ensures
            final(self).wf(),
            final(self).quads() == old(self).quads().insert(*quad),
            final(self).strings() == old(self).strings(),
    {
        let ghost q0 = old(self).quads();
        let subject = self.intern(&quad.subject);
        let predicate = self.intern(&quad.predicate);
        let object = self.intern(&quad.object);
        let graph_name = if quad.graph_name.is_default_graph() {
            None
        } else {
            Some(self.intern(&quad.graph_name))
        };
        let iq = IdQuad { subject, predicate, object, graph_name };
        assert(self.decode_ids(iq) == *quad);
        let ghost before = *self;
        self.indexes.insert_encoded(&iq);
        proof {
            assert forall|x: IdQuad| #[trigger] self.indexes.holds(x) implies self.ids_known(x)
                && storable(self.decode_ids(x)) by {
                if x != iq {
                    assert(before.indexes.holds(x));
                }
            }
            assert forall|q: EncodedQuad| self.quads().contains(q) == q0.insert(*quad).contains(q) by {
                if self.quads().contains(q) {
                    let x = choose|x: IdQuad| #[trigger] self.indexes.holds(x) && self.decode_ids(x) == q;
                    if x != iq {
                        assert(before.indexes.holds(x));
                        assert(before.quads().contains(q));
                    }
                }
                if before.quads().contains(q) {
                    let x = choose|x: IdQuad| #[trigger] before.indexes.holds(x) && before.decode_ids(x) == q;
                    assert(self.indexes.holds(x));
                }
                if q == *quad {
                    assert(self.indexes.holds(iq));
                }
            }
            assert(self.quads() =~= q0.insert(*quad));
        }
    }

    /// The ids of a quad's terms, if each has one.
    fn quad_ids(&self, quad: &EncodedQuad) -> (r: Option<IdQuad>)
        requires
            self.wf(),
            storable(*quad),
        ensures
            r matches Some(iq) ==> self.ids_known(iq) && self.decode_ids(iq) == *quad,
            r is None ==> !self.quads().contains(*quad),
    {
        let subject = self.lookup(&quad.subject);
        let predicate = self.lookup(&quad.predicate);
        let object = self.lookup(&quad.object);
        let graph_name = if quad.graph_name.is_default_graph() {
            Some(None)
        } else {
            match self.lookup(&quad.graph_name) {
                Some(g) => Some(Some(g)),
                None => None,
            }
        };
        match (subject, predicate, object, graph_name) {
            (Some(s), Some(p), Some(o), Some(g)) => {
                let iq = IdQuad { subject: s, predicate: p, object: o, graph_name: g };
                assert(self.decode_ids(iq) == *quad);
                Some(iq)
            },
            _ => {
                proof {
                    if self.quads().contains(*quad) {
                        let x = choose|x: IdQuad| #[trigger] self.indexes.holds(x) && self.decode_ids(x) == *quad;
                        assert(self.ids_known(x));
                        assert(self.terms@[x.subject as int] == quad.subject);
                        assert(self.terms@[x.predicate as int] == quad.predicate);
                        assert(self.terms@[x.object as int] == quad.object);
                        if let Some(g) = x.graph_name {
                            assert(self.terms@[g as int] == quad.graph_name);
                            assert(internable(self.terms@[g as int]));
                        }
                    }
                }
                None
            },
        }
    }

    /// Removes a quad.
    pub fn remove_encoded(&mut self, quad: &EncodedQuad)
        requires
            old(self).wf(),
            storable(*quad),
        ensures
            final(self).wf(),
            final(self).quads() == old(self).quads().remove(*quad),
            final(self).strings() == old(self).strings(),
    {
        let ghost before = *self;
        match self.quad_ids(quad) {
            Some(iq) => {
                self.indexes.remove_encoded(&iq);
                proof {
                    assert forall|x: IdQuad| #[trigger] self.indexes.holds(x) implies self.ids_known(x)
                        && storable(self.decode_ids(x)) by {
                        assert(before.indexes.holds(x));
                    }
                    assert forall|q: EncodedQuad| self.quads().contains(q) == before.quads().remove(*quad).contains(q) by {
                        if self.quads().contains(q) {
                            let x = choose|x: IdQuad| #[trigger] self.indexes.holds(x) && self.decode_ids(x) == q;
                            assert(before.indexes.holds(x));
                            assert(before.quads().contains(q));
                        }
                        if before.quads().contains(q) && q != *quad {
                            let x = choose|x: IdQuad| #[trigger] before.indexes.holds(x) && before.decode_ids(x) == q;
                            assert(x != iq);
                            assert(self.indexes.holds(x));
                        }
                        if q == *quad && self.quads().contains(q) {
                            let x = choose|x: IdQuad| #[trigger] self.indexes.holds(x) && self.decode_ids(x) == q;
                            assert(before.indexes.holds(x));
                            before.lemma_decode_injective(x, iq);
                        }
                    }
                    assert(self.quads() =~= before.quads().remove(*quad));
                }
            },
            None => {
                assert(self.quads() =~= before.quads().remove(*quad));
            },
        }
    }

    /// Whether the store holds the quad.
    pub fn contains_encoded(&self, quad: &EncodedQuad) -> (r: bool)
        requires
            self.wf(),
            storable(*quad),
        ensures
            r == self.quads().contains(*quad),
    {
        match self.quad_ids(quad) {
            Some(iq) => {
                let r = self.indexes.contains_encoded(&iq);
                proof {
                    if self.quads().contains(*quad) {
                        let x = choose|x: IdQuad| #[trigger] self.indexes.holds(x) && self.decode_ids(x) == *quad;
                        self.lemma_decode_injective(x, iq);
                    }
                }
                r
            },
            None => false,
        }
    }

    /// Whether the store holds no quad.
    pub fn is_empty(&self) -> (r: bool)
        requires
            self.wf(),
        ensures
            r == (self.quads() == Set::<EncodedQuad>::empty()),
    {
        let r = self.indexes.is_empty();
        proof {
            if r {
                assert(self.quads() =~= Set::<EncodedQuad>::empty());
            } else {
                let x = choose|x: IdQuad| #[trigger] self.indexes.holds(x);
                assert(self.quads().contains(self.decode_ids(x)));
            }
        }
        r
    }
}

impl MemoryStore {
    /// The encoded quads of quads of ids that the store holds, each once.
    fn decode_all(&self, ids: &Vec<IdQuad>) -> (r: Vec<EncodedQuad>)
        requires
            self.wf(),
            ids@.no_duplicates(),
            forall|k: int| 0 <= k < ids@.len() ==> self.indexes.holds(#[trigger] ids@[k]),
        ensures
            r@ == ids@.map_values(|iq: IdQuad| self.decode_ids(iq)),
            r@.no_duplicates(),
    {
        let mut r: Vec<EncodedQuad> = Vec::new();
        let mut i: usize = 0;
        while i < ids.len()
            invariant
                i <= ids@.len(),
                self.wf(),
                ids@.no_duplicates(),
                forall|k: int| 0 <= k < ids@.len() ==> self.indexes.holds(#[trigger] ids@[k]),
                r@ == ids@.take(i as int).map_values(|iq: IdQuad| self.decode_ids(iq)),
                r@.no_duplicates(),
            decreases ids.len() - i,
        {
            let iq = ids[i];
            assert(self.indexes.holds(iq));
            assert(self.ids_known(iq));
            let n = self.terms.len();
            let graph_name = match iq.graph_name {
                None => EncodedTerm::DefaultGraph,
                Some(g) => self.terms[g as usize].clone(),
            };
            let q = EncodedQuad {
                subject: self.terms[iq.subject as usize].clone(),
                predicate: self.terms[iq.predicate as usize].clone(),
                object: self.terms[iq.object as usize].clone(),
                graph_name,
            };
            assert(q == self.decode_ids(iq));
            proof {
                if r@.contains(q) {
                    let w = choose|w: int| 0 <= w < r@.len() && r@[w] == q;
                    assert(r@[w] == self.decode_ids(ids@[w]));
                    assert(self.indexes.holds(ids@[w]));
                    self.lemma_decode_injective(ids@[w], iq);
                    assert(ids@[w] == ids@[i as int]);
                }
                lemma_push_no_dup(r@, q);
                assert(ids@.take(i + 1).map_values(|iq: IdQuad| self.decode_ids(iq))
                    =~= ids@.take(i as int).map_values(|iq: IdQuad| self.decode_ids(iq)).push(q));
            }
            r.push(q);
            i = i + 1;
        }
        assert(ids@.take(ids@.len() as int) =~= ids@);
        r
    }

    /// The quads that a pattern of encoded terms matches, each once; a graph
    /// of the default graph marker asks for the default graph.
    pub fn encoded_quads_for_pattern(
        &self,
        subject: Option<&EncodedTerm>,
        predicate: Option<&EncodedTerm>,
        object: Option<&EncodedTerm>,
        graph_name: Option<&EncodedTerm>,
    ) -> (r: Vec<EncodedQuad>)
        requires
            self.wf(),
            subject matches Some(t) ==> internable(*t),
            predicate matches Some(t) ==> internable(*t),
            object matches Some(t) ==> internable(*t),
            graph_name matches Some(t) ==> term_wf(*t),
        ensures
            forall|q: EncodedQuad| #[trigger] r@.contains(q) <==> (self.quads().contains(q)
                && quad_matches(q, subject, predicate, object, graph_name)),
            r@.no_duplicates(),
    {
        let sid = match subject {
            Some(t) => match self.lookup(t) {
                Some(i) => Some(i),
                None => {
                    proof { self.lemma_no_match_subject(*t, predicate, object, graph_name); }
                    return Vec::new();
                },
            },
            None => None,
        };
        let pid = match predicate {
            Some(t) => match self.lookup(t) {
                Some(i) => Some(i),
                None => {
                    proof { self.lemma_no_match_predicate(subject, *t, object, graph_name); }
                    return Vec::new();
                },
            },
            None => None,
        };
        let oid = match object {
            Some(t) => match self.lookup(t) {
                Some(i) => Some(i),
                None => {
                    proof { self.lemma_no_match_object(subject, predicate, *t, graph_name); }
                    return Vec::new();
                },
            },
            None => None,
        };
        let gid: Option<Option<u64>> = match graph_name {
            Some(t) => if t.is_default_graph() {
                Some(None)
            } else {
                match self.lookup(t) {
                    Some(i) => Some(Some(i)),
                    None => {
                        proof { self.lemma_no_match_graph(subject, predicate, object, *t); }
                        return Vec::new();
                    },
                }
            },
            None => None,
        };
        let ids = self.indexes.encoded_quads_for_pattern_inner(sid, pid, oid, gid);
        assert forall|k: int| 0 <= k < ids@.len() implies self.indexes.holds(#[trigger] ids@[k]) by {
            assert(ids@.contains(ids@[k]));
        }
        let r = self.decode_all(&ids);
        proof {
            assert forall|q: EncodedQuad| #[trigger] r@.contains(q) <==> (self.quads().contains(q)
                && quad_matches(q, subject, predicate, object, graph_name)) by {
                if r@.contains(q) {
                    let w = choose|w: int| 0 <= w < r@.len() && r@[w] == q;
                    let iq = ids@[w];
                    assert(ids@.contains(iq));
                    assert(self.decode_ids(iq) == q);
                }
                if self.quads().contains(q) && quad_matches(q, subject, predicate, object, graph_name) {
                    let iq = choose|iq: IdQuad| #[trigger] self.indexes.holds(iq) && self.decode_ids(iq) == q;
                    assert(self.ids_known(iq));
                    if let Some(i) = sid {
                        self.lemma_ids_distinct(i as int, iq.subject as int);
                    }
                    if let Some(i) = pid {
                        self.lemma_ids_distinct(i as int, iq.predicate as int);
                    }
                    if let Some(i) = oid {
                        self.lemma_ids_distinct(i as int, iq.object as int);
                    }
                    if let Some(Some(i)) = gid {
                        match iq.graph_name {
                            Some(x) => self.lemma_ids_distinct(i as int, x as int),
                            None => assert(internable(self.terms@[i as int])),
                        }
                    }
                    if let Some(None) = gid {
                        if let Some(x) = iq.graph_name {
                            assert(internable(self.terms@[x as int]));
                        }
                    }
                    assert(id_matches(iq, sid, pid, oid, gid));
                    assert(ids@.contains(iq));
                    let w = choose|w: int| 0 <= w < ids@.len() && ids@[w] == iq;
                    assert(r@[w] == q);
                }
            }
        }
        r
    }

    proof fn lemma_no_match_subject(
        &self,
        t: EncodedTerm,
        predicate: Option<&EncodedTerm>,
        object: Option<&EncodedTerm>,
        graph_name: Option<&EncodedTerm>,
    )
        requires
            self.wf(),
            !self.interned(t),
        ensures
            forall|q: EncodedQuad| !(#[trigger] self.quads().contains(q) && q.subject == t),
    {
        assert forall|q: EncodedQuad| !(#[trigger] self.quads().contains(q) && q.subject == t) by {
            if self.quads().contains(q) && q.subject == t {
                let iq = choose|iq: IdQuad| #[trigger] self.indexes.holds(iq) && self.decode_ids(iq) == q;
                assert(self.ids_known(iq));
                assert(self.terms@[iq.subject as int] == t);
            }
        }
    }

    proof fn lemma_no_match_predicate(
        &self,
        subject: Option<&EncodedTerm>,
        t: EncodedTerm,
        object: Option<&EncodedTerm>,
        graph_name: Option<&EncodedTerm>,
    )
        requires
            self.wf(),
            !self.interned(t),
        ensures
            forall|q: EncodedQuad| !(#[trigger] self.quads().contains(q) && q.predicate == t),
    {
        assert forall|q: EncodedQuad| !(#[trigger] self.quads().contains(q) && q.predicate == t) by {
            if self.quads().contains(q) && q.predicate == t {
                let iq = choose|iq: IdQuad| #[trigger] self.indexes.holds(iq) && self.decode_ids(iq) == q;
                assert(self.ids_known(iq));
                assert(self.terms@[iq.predicate as int] == t);
            }
        }
    }

    proof fn lemma_no_match_object(
        &self,
        subject: Option<&EncodedTerm>,
        predicate: Option<&EncodedTerm>,
        t: EncodedTerm,
        graph_name: Option<&EncodedTerm>,
    )
        requires
            self.wf(),
            !self.interned(t),
        ensures
            forall|q: EncodedQuad| !(#[trigger] self.quads().contains(q) && q.object == t),
    {
        assert forall|q: EncodedQuad| !(#[trigger] self.quads().contains(q) && q.object == t) by {
            if self.quads().contains(q) && q.object == t {
                let iq = choose|iq: IdQuad| #[trigger] self.indexes.holds(iq) && self.decode_ids(iq) == q;
                assert(self.ids_known(iq));
                assert(self.terms@[iq.object as int] == t);
            }
        }
    }

    proof fn lemma_no_match_graph(
        &self,
        subject: Option<&EncodedTerm>,
        predicate: Option<&EncodedTerm>,
        object: Option<&EncodedTerm>,
        t: EncodedTerm,
    )
        requires
            self.wf(),
            !self.interned(t),
            !(t is DefaultGraph),
        ensures
            forall|q: EncodedQuad| !(#[trigger] self.quads().contains(q) && q.graph_name == t),
    {
        assert forall|q: EncodedQuad| !(#[trigger] self.quads().contains(q) && q.graph_name == t) by {
            if self.quads().contains(q) && q.graph_name == t {
                let iq = choose|iq: IdQuad| #[trigger] self.indexes.holds(iq) && self.decode_ids(iq) == q;
                assert(self.ids_known(iq));
                if let Some(g) = iq.graph_name {
                    assert(self.terms@[g as int] == t);
                }
            }
        }
    }

    /// The number of quads held; a full scan.
    pub fn len(&self) -> (r: usize)
        requires
            self.wf(),
        ensures
            self.quads().finite(),
            r == self.quads().len(),
    {
        let ids = self.indexes.encoded_quads();
        let n = ids.len();
        proof {
            let d = ids@.map_values(|iq: IdQuad| self.decode_ids(iq));
            assert(d.no_duplicates()) by {
                assert forall|a: int, b: int| 0 <= a < b < d.len() implies d[a] != d[b] by {
                    assert(ids@.contains(ids@[a]) && ids@.contains(ids@[b]));
                    if d[a] == d[b] {
                        self.lemma_decode_injective(ids@[a], ids@[b]);
                    }
                }
            }
            d.unique_seq_to_set();
            assert forall|q: EncodedQuad| d.to_set().contains(q) == self.quads().contains(q) by {
                if d.contains(q) {
                    let w = choose|w: int| 0 <= w < d.len() && d[w] == q;
                    assert(ids@.contains(ids@[w]));
                }
                if self.quads().contains(q) {
                    let iq = choose|iq: IdQuad| #[trigger] self.indexes.holds(iq) && self.decode_ids(iq) == q;
                    assert(ids@.contains(iq));
                    let w = choose|w: int| 0 <= w < ids@.len() && ids@[w] == iq;
                    assert(d[w] == q);
                }
            }
            assert(d.to_set() =~= self.quads());
        }
        n
    }
}

impl MemoryStore {
    /// The long strings of the store, by their hash.
    pub closed spec fn strings(&self) -> Map<StrHash, Seq<char>> {
        Map::new(
            |h: StrHash| self.id2str.view().contains_key(h.bytes()) && valid_utf8(self.id2str.view()[h.bytes()]),
            |h: StrHash| vstd::utf8::decode_utf8(self.id2str.view()[h.bytes()]),
        )
    }

    /// Records a string under its hash.
    fn insert_str(&mut self, key: &StrHash, value: &str)
        requires
            old(self).wf(),
        ensures
            final(self).wf(),
            final(self).quads() == old(self).quads(),
            final(self).strings() == old(self).strings().insert(*key, value@),
    {
        let ghost old_self = *self;
        let k = key.to_be_bytes();
        self.id2str.insert(&k, value.as_bytes());
        proof {
            vstd::utf8::encode_utf8_valid_utf8(value@);
            vstd::utf8::encode_utf8_decode_utf8(value@);
            assert forall|h: StrHash| #[trigger] self.strings().contains_key(h) <==> old_self.strings().insert(*key, value@).contains_key(h) by {
                h.lemma_bytes_roundtrip(h.bytes());
                key.lemma_bytes_roundtrip(key.bytes());
            }
            assert forall|h: StrHash| #[trigger] self.strings().contains_key(h) implies self.strings()[h] == old_self.strings().insert(*key, value@)[h] by {
                h.lemma_bytes_roundtrip(h.bytes());
                key.lemma_bytes_roundtrip(key.bytes());
            }
            assert(self.strings() =~= old_self.strings().insert(*key, value@));
            assert(self.quads() =~= old_self.quads());
        }
    }

    /// Records strings under their hashes, one after the other.
    fn insert_strs(&mut self, pairs: &Vec<(StrHash, String)>)
        requires
            old(self).wf(),
        ensures
            final(self).wf(),
            final(self).quads() == old(self).quads(),
            final(self).strings() == old(self).strings().union_prefer_right(strings_map(pair_views(pairs@))),
    {
        let ghost old_self = *self;
        let mut i: usize = 0;
        assert(pair_views(pairs@).take(0) =~= Seq::<(StrHash, Seq<char>)>::empty());
        assert(old_self.strings().union_prefer_right(Map::empty()) =~= old_self.strings());
        while i < pairs.len()
            invariant
                self.wf(),
                i <= pairs@.len(),
                self.quads() == old_self.quads(),
                self.strings() == old_self.strings().union_prefer_right(strings_map(pair_views(pairs@).take(i as int))),
            decreases pairs@.len() - i,
        {
            self.insert_str(&pairs[i].0, pairs[i].1.as_str());
            proof {
                let pv = pair_views(pairs@);
                assert(pv.take(i + 1).drop_last() =~= pv.take(i as int));
                assert(pv.take(i + 1).last() == pv[i as int]);
                assert(self.strings() =~= old_self.strings().union_prefer_right(strings_map(pv.take(i + 1))));
            }
            i = i + 1;
        }
        assert(pair_views(pairs@).take(pairs@.len() as int) =~= pair_views(pairs@));
    }

    /// Adds a quad, with its long strings in the string store.
    pub fn insert(&mut self, quad: &Quad)
        requires
            old(self).wf(),
        ensures
            final(self).wf(),
            final(self).quads() == old(self).quads().insert(encode_quad_spec(*quad)),
            final(self).strings() == old(self).strings().union_prefer_right(strings_map(quad_strings_spec(*quad))),
    {
        let encoder = TermEncoder::new();
        let encoded = encoder.encode_quad(quad);
        let mut strs: Vec<(StrHash, String)> = Vec::new();
        insert_quad_strings(quad, &encoded, &mut strs);
        assert(pair_views(strs@) =~= quad_strings_spec(*quad));
        self.insert_strs(&strs);
        proof {
            lemma_encode_term_wf(quad.subject);
            lemma_encode_term_wf(quad.object);
            lemma_encode_graph_name_wf(quad.graph_name);
        }
        self.insert_encoded(&encoded);
    }

    /// Removes a quad; its strings stay.
    pub fn remove(&mut self, quad: &Quad)
        requires
            old(self).wf(),
        ensures
            final(self).wf(),
            final(self).quads() == old(self).quads().remove(encode_quad_spec(*quad)),
            final(self).strings() == old(self).strings(),
    {
        let encoder = TermEncoder::new();
        let encoded = encoder.encode_quad(quad);
        proof {
            lemma_encode_term_wf(quad.subject);
            lemma_encode_term_wf(quad.object);
            lemma_encode_graph_name_wf(quad.graph_name);
        }
        self.remove_encoded(&encoded);
    }

    /// Whether the store holds the quad.
    pub fn contains(&self, quad: &Quad) -> (r: bool)
        requires
            self.wf(),
        ensures
            r == self.quads().contains(encode_quad_spec(*quad)),
    {
        let encoder = TermEncoder::new();
        let encoded = encoder.encode_quad(quad);
        proof {
            lemma_encode_term_wf(quad.subject);
            lemma_encode_term_wf(quad.object);
            lemma_encode_graph_name_wf(quad.graph_name);
        }
        self.contains_encoded(&encoded)
    }

    /// Adds the quads of a document, one after the other, each blank node
    /// label of the document standing for one fresh blank node.
    pub fn load_dataset(&mut self, quads: &Vec<Quad>)
        requires
            old(self).wf(),
        ensures
            final(self).wf(),
            exists|rs: Seq<Quad>| #[trigger] loaded_quads(quads@, rs) && {
                &&& final(self).quads() == old(self).quads() + crate::store::quads_of(rs)
                &&& final(self).strings() == old(self).strings().union_prefer_right(strings_map(crate::store::quads_strings(rs)))
            },
    {
        let relabeled = relabel_quads(quads);
        self.add_quads(&relabeled);
    }

    /// Adds the triples of a document, in the given graph, one after the
    /// other, each blank node label of the document standing for one fresh
    /// blank node.
    pub fn load_graph(&mut self, triples: &Vec<Triple>, to_graph_name: &GraphName)
        requires
            old(self).wf(),
        ensures
            final(self).wf(),
            exists|rs: Seq<Quad>| #[trigger] loaded_triples(triples@, *to_graph_name, rs) && {
                &&& final(self).quads() == old(self).quads() + crate::store::quads_of(rs)
                &&& final(self).strings() == old(self).strings().union_prefer_right(strings_map(crate::store::quads_strings(rs)))
            },
    {
        let relabeled = relabel_triples(triples, to_graph_name);
        self.add_quads(&relabeled);
    }

    /// Adds quads, one after the other.
    fn add_quads(&mut self, quads: &Vec<Quad>)
        requires
            old(self).wf(),
        ensures
            final(self).wf(),
            final(self).quads() == old(self).quads() + crate::store::quads_of(quads@),
            final(self).strings() == old(self).strings().union_prefer_right(strings_map(crate::store::quads_strings(quads@))),
    {
        let ghost old_self = *self;
        let mut i: usize = 0;
        assert(quads@.take(0) =~= Seq::<Quad>::empty());
        assert(old_self.quads() + crate::store::quads_of(quads@.take(0)) =~= old_self.quads());
        assert(old_self.strings().union_prefer_right(strings_map(crate::store::quads_strings(quads@.take(0)))) =~= old_self.strings());
        while i < quads.len()
            invariant
                self.wf(),
                i <= quads@.len(),
                self.quads() == old_self.quads() + crate::store::quads_of(quads@.take(i as int)),
                self.strings() == old_self.strings().union_prefer_right(strings_map(crate::store::quads_strings(quads@.take(i as int)))),
            decreases quads@.len() - i,
        {
            let ghost q = quads@[i as int];
            self.insert(&quads[i]);
            proof {
                let t = quads@.take(i as int);
                let t1 = quads@.take(i + 1);
                assert(t1.drop_last() =~= t);
                assert(t1.last() == q);
                assert forall|e: EncodedQuad| #[trigger] crate::store::quads_of(t1).contains(e) <==> crate::store::quads_of(t).insert(encode_quad_spec(q)).contains(e) by {
                    if crate::store::quads_of(t).contains(e) {
                        let j = choose|j: int| 0 <= j < t.len() && e == encode_quad_spec(#[trigger] t[j]);
                        assert(t1[j] == t[j]);
                    }
                    if crate::store::quads_of(t1).contains(e) {
                        let j = choose|j: int| 0 <= j < t1.len() && e == encode_quad_spec(#[trigger] t1[j]);
                        if j < i {
                            assert(t1[j] == t[j]);
                        }
                    }
                    if e == encode_quad_spec(q) {
                        assert(t1[i as int] == q);
                    }
                }
                assert(self.quads() =~= old_self.quads() + crate::store::quads_of(t1));
                crate::store::lemma_strings_map_concat(crate::store::quads_strings(t), quad_strings_spec(q));
                assert(crate::store::quads_strings(t1) == crate::store::quads_strings(t) + quad_strings_spec(q));
                assert(self.strings() =~= old_self.strings().union_prefer_right(strings_map(crate::store::quads_strings(t1))));
            }
            i = i + 1;
        }
        assert(quads@.take(quads@.len() as int) =~= quads@);
    }

    /// Decodes encoded quads.
    fn decode_quads(&self, encoded: &Vec<EncodedQuad>) -> (r: Result<Vec<Quad>, StorageError>)
        requires
            self.wf(),
        ensures
            r is Ok <==> forall|a: int| 0 <= a < encoded@.len() ==> quad_decodable(#[trigger] encoded@[a], self.strings()),
            r matches Ok(v) ==> v@.len() == encoded@.len() && forall|a: int| 0 <= a < v@.len() ==> quad_decodes_to(encoded@[a], self.strings(), #[trigger] v@[a]),
    {
        let decoder = TermDecoder::new(self);
        let mut out: Vec<Quad> = Vec::new();
        let mut i: usize = 0;
        while i < encoded.len()
            invariant
                decoder.strs() == self.strings(),
                decoder.wf(),
                i <= encoded@.len(),
                out@.len() == i,
                forall|a: int| 0 <= a < i ==> quad_decodable(#[trigger] encoded@[a], self.strings()),
                forall|a: int| 0 <= a < out@.len() ==> quad_decodes_to(encoded@[a], self.strings(), #[trigger] out@[a]),
            decreases encoded@.len() - i,
        {
            match decoder.decode_quad(&encoded[i]) {
                Ok(q) => out.push(q),
                Err(e) => return Err(e),
            }
            i = i + 1;
        }
        Ok(out)
    }

    /// The quads that match a pattern of terms, decoded; a graph of the
    /// default graph asks for the default graph.
    pub fn quads_for_pattern(
        &self,
        subject: Option<&Term>,
        predicate: Option<&NamedNode>,
        object: Option<&Term>,
        graph_name: Option<&GraphName>,
    ) -> (r: Result<Vec<Quad>, StorageError>)
        requires
            self.wf(),
        ensures
            ({
                let sel = self.quads().filter(|q: EncodedQuad| crate::pattern::encoded_pattern_matches(q, subject, predicate, object, graph_name));
                &&& (r is Ok <==> forall|e: EncodedQuad| #[trigger] sel.contains(e) ==> quad_decodable(e, self.strings()))
                &&& (r matches Ok(v) ==> decoded_quads(sel, self.strings(), v@))
            }),
    {
        let encoder = TermEncoder::new();
        let s = match subject {
            Some(t) => Some(encoder.encode_term(t)),
            None => None,
        };
        let p = match predicate {
            Some(n) => Some(encoder.encode_named_node(n)),
            None => None,
        };
        let o = match object {
            Some(t) => Some(encoder.encode_term(t)),
            None => None,
        };
        let g = match graph_name {
            Some(n) => Some(encoder.encode_graph_name(n)),
            None => None,
        };
        proof {
            if let Some(t) = subject {
                lemma_encode_term_wf(*t);
            }
            if let Some(t) = object {
                lemma_encode_term_wf(*t);
            }
            if let Some(n) = graph_name {
                lemma_encode_graph_name_wf(*n);
            }
        }
        let encoded = self.encoded_quads_for_pattern(s.as_ref(), p.as_ref(), o.as_ref(), g.as_ref());
        let r = self.decode_quads(&encoded);
        let ghost sel = self.quads().filter(|q: EncodedQuad| crate::pattern::encoded_pattern_matches(q, subject, predicate, object, graph_name));
        proof {
            assert forall|q: EncodedQuad| #[trigger] encoded@.contains(q) <==> sel.contains(q) by {}
            lemma_decoded_quads(sel, self.strings(), encoded@, r);
        }
        r
    }

    /// All the quads of the store, decoded.
    pub fn iter(&self) -> (r: Result<Vec<Quad>, StorageError>)
        requires
            self.wf(),
        ensures
            r is Ok <==> forall|e: EncodedQuad| #[trigger] self.quads().contains(e) ==> quad_decodable(e, self.strings()),
            r matches Ok(v) ==> decoded_quads(self.quads(), self.strings(), v@),
    {
        let encoded = self.encoded_quads_for_pattern(None, None, None, None);
        let r = self.decode_quads(&encoded);
        proof {
            assert forall|q: EncodedQuad| #[trigger] encoded@.contains(q) <==> self.quads().contains(q) by {}
            lemma_decoded_quads(self.quads(), self.strings(), encoded@, r);
        }
        r
    }

    /// The quads of a graph, decoded, for a serializer to write.
    pub fn dump_graph(&self, from_graph_name: &GraphName) -> (r: Result<Vec<Quad>, StorageError>)
        requires
            self.wf(),
        ensures
            ({
                let sel = self.quads().filter(|q: EncodedQuad| crate::pattern::encoded_pattern_matches(q, None, None, None, Some(from_graph_name)));
                &&& (r is Ok <==> forall|e: EncodedQuad| #[trigger] sel.contains(e) ==> quad_decodable(e, self.strings()))
                &&& (r matches Ok(v) ==> decoded_quads(sel, self.strings(), v@))
            }),
    {
        self.quads_for_pattern(None, None, None, Some(from_graph_name))
    }

    /// All the quads of the store, decoded, for a serializer to write.
    pub fn dump_dataset(&self) -> (r: Result<Vec<Quad>, StorageError>)
        requires
            self.wf(),
        ensures
            r is Ok <==> forall|e: EncodedQuad| #[trigger] self.quads().contains(e) ==> quad_decodable(e, self.strings()),
            r matches Ok(v) ==> decoded_quads(self.quads(), self.strings(), v@),
    {
        self.iter()
    }

    /// Whether the two stores hold isomorphic datasets: the same quads up to
    /// a renaming of their blank nodes. The canonical forms of their quads
    /// are compared; the test takes time exponential in the number of blank
    /// nodes at worst.
    pub fn is_isomorphic(&self, other: &MemoryStore) -> (r: bool)
        requires
            self.wf(),
            other.wf(),
            forall|e: EncodedQuad| #[trigger] self.quads().contains(e) ==> quad_decodable(e, self.strings()),
            forall|e: EncodedQuad| #[trigger] other.quads().contains(e) ==> quad_decodable(e, other.strings()),
        ensures
            exists|va: Seq<Quad>, vb: Seq<Quad>|
                decoded_quads(self.quads(), self.strings(), va) && decoded_quads(other.quads(), other.strings(), vb)
                    && r == (iso_canonical_form(va) == iso_canonical_form(vb)),
    {
        match self.iter() {
            Ok(va) => match other.iter() {
                Ok(vb) => {
                    let ca = canonical_form(&va);
                    let cb = canonical_form(&vb);
                    let r = same_lines(&ca, &cb);
                    assert(decoded_quads(self.quads(), self.strings(), va@) && decoded_quads(other.quads(), other.strings(), vb@)
                        && r == (iso_canonical_form(va@) == iso_canonical_form(vb@)));
                    r
                },
                Err(_) => false,
            },
            Err(_) => false,
        }
    }

    /// Whether every quad of this store is in the other.
    fn quads_within(&self, other: &MemoryStore) -> (r: bool)
        requires
            self.wf(),
            other.wf(),
        ensures
            r == self.quads().subset_of(other.quads()),
    {
        let all = self.encoded_quads_for_pattern(None, None, None, None);
        let mut i: usize = 0;
        while i < all.len()
            invariant
                self.wf(),
                other.wf(),
                i <= all@.len(),
                forall|q: EncodedQuad| #[trigger] all@.contains(q) <==> self.quads().contains(q),
                forall|j: int| 0 <= j < i ==> other.quads().contains(#[trigger] all@[j]),
            decreases all.len() - i,
        {
            let q = &all[i];
            proof {
                assert(all@.contains(all@[i as int]));
                self.lemma_quad_storable(*q);
            }
            if !other.contains_encoded(q) {
                return false;
            }
            i = i + 1;
        }
        assert forall|q: EncodedQuad| self.quads().contains(q) implies other.quads().contains(q) by {
            assert(all@.contains(q));
            let j = choose|j: int| 0 <= j < all@.len() && all@[j] == q;
            assert(other.quads().contains(all@[j]));
        }
        true
    }

    /// Whether the two stores hold the same quads.
    pub fn eq(&self, other: &MemoryStore) -> (r: bool)
        requires
            self.wf(),
            other.wf(),
        ensures
            r == (self.quads() == other.quads()),
    {
        let a = self.quads_within(other);
        let b = other.quads_within(self);
        proof {
            if a && b {
                assert(self.quads() =~= other.quads());
            }
        }
        a && b
    }
}

impl StrLookup for MemoryStore {
    open spec fn lookup_wf(&self) -> bool {
        self.wf()
    }

    open spec fn str_map(&self) -> Map<StrHash, Seq<char>> {
        self.strings()
    }

    fn get_str(&self, key: &StrHash) -> (r: Result<Option<String>, StorageError>) {
        let k = key.to_be_bytes();
        match self.id2str.get_any(&k) {
            Some(bytes) => match str_from_utf8(bytes.as_slice()) {
                Ok(s) => {
                    proof {
                        vstd::utf8::encode_utf8_decode_utf8(s@);
                    }
                    Ok(Some(s.to_owned()))
                },
                Err(_) => Ok(None),
            },
            None => Ok(None),
        }
    }

    fn contains_str(&self, key: &StrHash) -> (r: Result<bool, StorageError>) {
        match self.get_str(key) {
            Ok(Some(_)) => Ok(true),
            _ => Ok(false),
        }
    }
}

// ---------------------------------------------------------------------------
// Laws

/// After a quad is added, the store contains it.
pub proof fn law_memory_insert_then_contains(before: MemoryStore, after: MemoryStore, q: Quad)
    requires
        after.quads() == before.quads().insert(encode_quad_spec(q)),
    ensures
        after.quads().contains(encode_quad_spec(q)),
{
}

/// After a quad is removed, the store does not contain it, and it keeps
/// every other quad.
pub proof fn law_memory_remove_then_not_contains(
    before: MemoryStore,
    after: MemoryStore,
    q: Quad,
    other: EncodedQuad,
)
    requires
        after.quads() == before.quads().remove(encode_quad_spec(q)),
        other != encode_quad_spec(q),
    ensures
        !after.quads().contains(encode_quad_spec(q)),
        after.quads().contains(other) == before.quads().contains(other),
{
}

/// Adding a quad the store does not hold adds one to its length; adding one
/// it holds leaves the length.
pub proof fn law_memory_insert_len(before: MemoryStore, after: MemoryStore, q: Quad)
    requires
        before.quads().finite(),
        after.quads() == before.quads().insert(encode_quad_spec(q)),
    ensures
        after.quads().len() == before.quads().len() + if before.quads().contains(encode_quad_spec(q)) {
            0int
        } else {
            1int
        },
{
    if before.quads().contains(encode_quad_spec(q)) {
        assert(after.quads() =~= before.quads());
    }
}

} // verus!
