//! Canonical forms of datasets for the isomorphism test: each blank node
//! gets a label that hashes its neighbourhood, refined until the partition
//! of the blank nodes is stable, a cell of several nodes being split by
//! marking each of its nodes in turn and keeping the least outcome; the
//! quads are then written with these labels and sorted.

use vstd::prelude::*;
use vstd::relations::{sorted_by, total_ordering};
use vstd::utf8::encode_utf8;
use crate::backend::{compare_bytes, lemma_lex_asymmetric, lemma_lex_irreflexive, lemma_lex_total, lemma_lex_transitive, lex_lt, Cmp};
use crate::endian::{u64_to_be, u64_to_be_bytes};
use crate::memory::{default_hash, default_hash_of};
use crate::model::{GraphName, Literal, NamedNode, Quad, Term};
use crate::term_decoder::{hex_format, numerical_blank_node_str};
use crate::text::str_eq;
use crate::utils::{escape_char, escaped, lemma_escaped_concat, Escaper};

verus! {

broadcast use {vstd::multiset::group_multiset_axioms, vstd::seq_lib::group_to_multiset_ensures};

// ---------------------------------------------------------------------------
// The order of byte strings, and sorting

/// Byte strings in lexicographic order, equal ones included.
pub open spec fn bytes_order() -> spec_fn(Seq<u8>, Seq<u8>) -> bool {
    |a: Seq<u8>, b: Seq<u8>| !lex_lt(b, a)
}

proof fn lemma_bytes_order_total()
    ensures
        total_ordering(bytes_order()),
{
    let leq = bytes_order();
    assert forall|a: Seq<u8>| #[trigger] leq(a, a) by {
        lemma_lex_irreflexive(a);
    }
    assert forall|a: Seq<u8>, b: Seq<u8>| #[trigger] leq(a, b) && #[trigger] leq(b, a) implies a == b by {
        lemma_lex_total(a, b);
    }
    assert forall|a: Seq<u8>, b: Seq<u8>, c: Seq<u8>| #[trigger] leq(a, b) && #[trigger] leq(b, c) implies leq(a, c) by {
        if lex_lt(c, a) {
            lemma_lex_total(a, b);
            lemma_lex_total(b, c);
            if a == b {
            } else if b == c {
            } else {
                lemma_lex_transitive(a, b, c);
                lemma_lex_asymmetric(a, c);
            }
        }
    }
    assert forall|a: Seq<u8>, b: Seq<u8>| #[trigger] leq(a, b) || #[trigger] leq(b, a) by {
        if lex_lt(b, a) {
            lemma_lex_asymmetric(b, a);
        }
    }
}

/// The byte strings that a vector of byte vectors holds.
pub open spec fn byte_views(v: Seq<Vec<u8>>) -> Seq<Seq<u8>> {
    v.map_values(|x: Vec<u8>| x@)
}

/// Sorts byte strings in lexicographic order.
pub fn sort_byte_strings(v: Vec<Vec<u8>>) -> (r: Vec<Vec<u8>>)
    ensures
        byte_views(r@) == byte_views(v@).sort_by(bytes_order()),
{
    let leq = Ghost(bytes_order());
    let mut out: Vec<Vec<u8>> = Vec::new();
    let mut rest = v;
    let ghost orig = byte_views(rest@);
    assert(byte_views(out@) =~= Seq::<Seq<u8>>::empty());
    assert(byte_views(out@).to_multiset() =~= vstd::multiset::Multiset::<Seq<u8>>::empty());
    // Elements are taken from the back of `rest`.
    while rest.len() > 0
        invariant
            sorted_by(byte_views(out@), leq@),
            leq@ == bytes_order(),
            byte_views(out@).to_multiset().add(byte_views(rest@).to_multiset()) == orig.to_multiset(),
        decreases rest.len(),
    {
        let ghost rest_before = byte_views(rest@);
        let x = rest.pop().unwrap();
        proof {
            assert(rest_before =~= byte_views(rest@).push(x@));
            vstd::seq_lib::to_multiset_build(byte_views(rest@), x@);
        }
        // The position of the first element above `x`.
        let mut j: usize = 0;
        let mut found = false;
        while j < out.len() && !found
            invariant
                j <= out@.len(),
                forall|k: int| 0 <= k < j ==> !lex_lt(x@, #[trigger] byte_views(out@)[k]),
                found ==> j < out@.len() && lex_lt(x@, byte_views(out@)[j as int]),
            decreases out@.len() - j, if found { 0int } else { 1int },
        {
            assert(byte_views(out@)[j as int] == out@[j as int]@);
            if compare_bytes(x.as_slice(), out[j].as_slice()) == Cmp::Less {
                found = true;
            } else {
                j = j + 1;
            }
        }
        proof {
            lemma_bytes_order_total();
        }
        let ghost before = byte_views(out@);
        let ghost xv = x@;
        out.insert(j, x);
        proof {
            assert(byte_views(out@) =~= before.insert(j as int, xv));
            vstd::seq_lib::to_multiset_insert(before, j as int, xv);
            let after = byte_views(out@);
            assert forall|a: int, b: int| 0 <= a < b < after.len() implies #[trigger] (leq@)(after[a], after[b]) by {
                if a < j && b < j {
                    assert(after[a] == before[a] && after[b] == before[b]);
                } else if a < j && b == j {
                    assert(after[a] == before[a]);
                    assert(!lex_lt(xv, before[a]));
                } else if a < j {
                    assert(after[a] == before[a] && after[b] == before[b - 1]);
                } else if a == j {
                    assert(after[b] == before[b - 1]);
                    if b - 1 == j as int {
                        // `x` is below the element it was put before.
                        lemma_lex_asymmetric(xv, before[j as int]);
                    } else {
                        assert((leq@)(before[j as int], before[b - 1]));
                        lemma_lex_asymmetric(xv, before[j as int]);
                        assert((leq@)(xv, before[j as int]));
                    }
                } else {
                    assert(after[a] == before[a - 1] && after[b] == before[b - 1]);
                }
            }
        }
    }
    proof {
        lemma_bytes_order_total();
        orig.lemma_sort_by_ensures(bytes_order());
        assert(byte_views(rest@) =~= Seq::<Seq<u8>>::empty());
        assert(byte_views(rest@).to_multiset() =~= vstd::multiset::Multiset::<Seq<u8>>::empty());
        assert(byte_views(out@).to_multiset() =~= orig.to_multiset());
        vstd::seq_lib::lemma_sorted_unique(byte_views(out@), orig.sort_by(bytes_order()), bytes_order());
    }
    out
}


// ---------------------------------------------------------------------------
// The text of terms and quads

/// The text of an IRI: `<`, its UTF-8 bytes, `>`.
pub open spec fn iri_text(iri: Seq<char>) -> Seq<u8> {
    seq![60u8] + encode_utf8(iri) + seq![62u8]
}

/// A lexical form between double quotes, escaped.
pub open spec fn quoted_text(v: Seq<char>) -> Seq<u8> {
    seq![34u8] + encode_utf8(escaped(v)) + seq![34u8]
}

/// The text of a blank node label.
pub open spec fn label_text(id: Seq<char>) -> Seq<u8> {
    seq![95u8, 58u8] + encode_utf8(id)
}

/// The text of a term, in the manner of N-Triples.
pub open spec fn term_text(t: Term) -> Seq<u8>
    decreases t,
{
    match t {
        Term::NamedNode(n) => iri_text(n.iri@),
        Term::BlankNode(b) => label_text(b.id@),
        Term::Literal(Literal::Simple(v)) => quoted_text(v@),
        Term::Literal(Literal::LanguageTagged { value, language }) => quoted_text(value@) + seq![64u8]
            + encode_utf8(language@),
        Term::Literal(Literal::Typed { value, datatype }) => quoted_text(value@) + seq![94u8, 94u8]
            + iri_text(datatype.iri@),
        Term::Triple(tr) => seq![60u8, 60u8, 32u8] + term_text(tr.subject) + seq![32u8] + iri_text(
            tr.predicate.iri@,
        ) + seq![32u8] + term_text(tr.object) + seq![32u8, 62u8, 62u8],
    }
}

// ---------------------------------------------------------------------------
// The blank nodes of a dataset

/// The label of a term that is a blank node.
pub open spec fn blank_of(t: Term) -> Option<Seq<char>> {
    match t {
        Term::BlankNode(b) => Some(b.id@),
        _ => None,
    }
}

/// The label of a graph name that is a blank node.
pub open spec fn graph_blank_of(g: GraphName) -> Option<Seq<char>> {
    match g {
        GraphName::BlankNode(b) => Some(b.id@),
        _ => None,
    }
}

/// Adds a label that a sequence does not hold yet.
pub open spec fn add_label(bs: Seq<Seq<char>>, x: Option<Seq<char>>) -> Seq<Seq<char>> {
    match x {
        Some(id) => if bs.contains(id) {
            bs
        } else {
            bs.push(id)
        },
        None => bs,
    }
}

/// The labels of the blank nodes that are the subject, object or graph name
/// of a quad, each once, in the order they first come.
pub open spec fn blank_nodes(qs: Seq<Quad>) -> Seq<Seq<char>>
    decreases qs.len(),
{
    if qs.len() == 0 {
        Seq::empty()
    } else {
        let q = qs.last();
        add_label(
            add_label(add_label(blank_nodes(qs.drop_last()), blank_of(q.subject)), blank_of(q.object)),
            graph_blank_of(q.graph_name),
        )
    }
}

/// The position of a label in a sequence, or -1.
pub open spec fn index_in(bs: Seq<Seq<char>>, x: Seq<char>) -> int
    decreases bs.len(),
{
    if bs.len() == 0 {
        -1
    } else if index_in(bs.drop_last(), x) >= 0 {
        index_in(bs.drop_last(), x)
    } else if bs.last() == x {
        bs.len() - 1
    } else {
        -1
    }
}

// ---------------------------------------------------------------------------
// Hashing neighbourhoods

/// The hash of a term: that of its blank node, or that of its text.
pub open spec fn term_hash(t: Term, bs: Seq<Seq<char>>, hs: Seq<u64>) -> u64 {
    match blank_of(t) {
        Some(id) => if index_in(bs, id) >= 0 {
            hs[index_in(bs, id)]
        } else {
            default_hash_of(term_text(t))
        },
        None => default_hash_of(term_text(t)),
    }
}

/// The hash of a graph name: that of its blank node, that of its IRI, or 0
/// for the default graph.
pub open spec fn graph_hash(g: GraphName, bs: Seq<Seq<char>>, hs: Seq<u64>) -> u64 {
    match g {
        GraphName::NamedNode(n) => default_hash_of(iri_text(n.iri@)),
        GraphName::BlankNode(b) => if index_in(bs, b.id@) >= 0 {
            hs[index_in(bs, b.id@)]
        } else {
            default_hash_of(label_text(b.id@))
        },
        GraphName::DefaultGraph => 0,
    }
}

/// Four hashes as 32 big-endian bytes, so that byte order is their order.
pub open spec fn key4(a: u64, b: u64, c: u64, d: u64) -> Seq<u8> {
    u64_to_be(a) + u64_to_be(b) + u64_to_be(c) + u64_to_be(d)
}

/// What a quad tells of the blank node `x`: its other terms' hashes and the
/// place `x` has, for each place `x` has in it.
pub open spec fn quad_keys(q: Quad, bs: Seq<Seq<char>>, hs: Seq<u64>, x: Seq<char>) -> Seq<Seq<u8>> {
    let s = term_hash(q.subject, bs, hs);
    let p = default_hash_of(iri_text(q.predicate.iri@));
    let o = term_hash(q.object, bs, hs);
    let g = graph_hash(q.graph_name, bs, hs);
    (if blank_of(q.subject) == Some(x) { seq![key4(p, o, g, 0)] } else { Seq::empty() })
        + (if blank_of(q.object) == Some(x) { seq![key4(s, p, g, 1)] } else { Seq::empty() })
        + (if graph_blank_of(q.graph_name) == Some(x) { seq![key4(s, p, o, 2)] } else { Seq::empty() })
}

/// What the quads tell of the blank node `x`.
pub open spec fn neighbour_keys(qs: Seq<Quad>, bs: Seq<Seq<char>>, hs: Seq<u64>, x: Seq<char>) -> Seq<Seq<u8>>
    decreases qs.len(),
{
    if qs.len() == 0 {
        Seq::empty()
    } else {
        neighbour_keys(qs.drop_last(), bs, hs, x) + quad_keys(qs.last(), bs, hs, x)
    }
}

/// Byte strings one after the other.
pub open spec fn concat_all(ks: Seq<Seq<u8>>) -> Seq<u8>
    decreases ks.len(),
{
    if ks.len() == 0 {
        Seq::empty()
    } else {
        concat_all(ks.drop_last()) + ks.last()
    }
}

/// The next hash of the blank node at `i`: its hash with what the quads
/// tell of it, in sorted order.
pub open spec fn round_hash(qs: Seq<Quad>, bs: Seq<Seq<char>>, hs: Seq<u64>, i: int) -> u64 {
    default_hash_of(u64_to_be(hs[i]) + concat_all(neighbour_keys(qs, bs, hs, bs[i]).sort_by(bytes_order())))
}

/// The next hashes of all the blank nodes.
pub open spec fn refine(qs: Seq<Quad>, bs: Seq<Seq<char>>, hs: Seq<u64>) -> Seq<u64> {
    Seq::new(bs.len(), |i: int| round_hash(qs, bs, hs, i))
}

/// The number of distinct values of a sequence.
pub open spec fn distinct_count(hs: Seq<u64>) -> nat
    decreases hs.len(),
{
    if hs.len() == 0 {
        0
    } else if hs.drop_last().contains(hs.last()) {
        distinct_count(hs.drop_last())
    } else {
        distinct_count(hs.drop_last()) + 1
    }
}

/// Refines the hashes until the number of cells stays the same, for at most
/// `fuel` more rounds: the hashes before the last round, and those after it,
/// which give the cells.
pub open spec fn hash_rounds(qs: Seq<Quad>, bs: Seq<Seq<char>>, hs: Seq<u64>, cells: nat, fuel: nat) -> (Seq<u64>, Seq<u64>)
    decreases fuel,
{
    let next = refine(qs, bs, hs);
    if distinct_count(next) == cells || fuel == 0 {
        (hs, next)
    } else {
        hash_rounds(qs, bs, next, distinct_count(next), (fuel - 1) as nat)
    }
}

// ---------------------------------------------------------------------------
// Splitting cells

/// How often a value comes in a sequence.
pub open spec fn count_of(hs: Seq<u64>, h: u64) -> nat
    decreases hs.len(),
{
    if hs.len() == 0 {
        0
    } else {
        count_of(hs.drop_last(), h) + if hs.last() == h { 1nat } else { 0nat }
    }
}

/// Among the first `k` positions, the cell of several nodes that is least by
/// its size, then by its hash.
pub open spec fn best_cell(hs: Seq<u64>, k: int) -> Option<(nat, u64)>
    decreases k,
{
    if k <= 0 {
        None
    } else {
        let prev = best_cell(hs, k - 1);
        let c = count_of(hs, hs[k - 1]);
        if c <= 1 {
            prev
        } else {
            match prev {
                Some((pc, ph)) => if c < pc || (c == pc && hs[k - 1] < ph) {
                    Some((c, hs[k - 1]))
                } else {
                    prev
                },
                None => Some((c, hs[k - 1])),
            }
        }
    }
}

/// The positions of the nodes of hash `h`, among the first `k`.
pub open spec fn members(hs: Seq<u64>, h: u64, k: int) -> Seq<int>
    decreases k,
{
    if k <= 0 {
        Seq::empty()
    } else if hs[k - 1] == h {
        members(hs, h, k - 1).push(k - 1)
    } else {
        members(hs, h, k - 1)
    }
}

/// Lists of byte strings in lexicographic order.
pub open spec fn lines_lt(a: Seq<Seq<u8>>, b: Seq<Seq<u8>>) -> bool
    decreases a.len(),
{
    if a.len() == 0 {
        b.len() > 0
    } else if b.len() == 0 {
        false
    } else if a[0] != b[0] {
        lex_lt(a[0], b[0])
    } else {
        lines_lt(a.drop_first(), b.drop_first())
    }
}

/// The hash a node gets when it is singled out.
pub open spec fn marked(h: u64) -> u64 {
    default_hash_of(u64_to_be(h) + u64_to_be(22))
}

/// The text of the blank node of hash `h`.
pub open spec fn hashed_label_text(h: u64) -> Seq<u8> {
    seq![95u8, 58u8] + encode_utf8(hex_format(h as nat))
}

/// The text of a term in a quad, a blank node by its hash.
pub open spec fn labelled_term_text(t: Term, bs: Seq<Seq<char>>, hs: Seq<u64>) -> Seq<u8> {
    match blank_of(t) {
        Some(id) => if index_in(bs, id) >= 0 {
            hashed_label_text(hs[index_in(bs, id)])
        } else {
            term_text(t)
        },
        None => term_text(t),
    }
}

/// The line of a quad, its blank nodes by their hashes.
pub open spec fn quad_line(q: Quad, bs: Seq<Seq<char>>, hs: Seq<u64>) -> Seq<u8> {
    labelled_term_text(q.subject, bs, hs) + seq![32u8] + iri_text(q.predicate.iri@) + seq![32u8]
        + labelled_term_text(q.object, bs, hs) + match q.graph_name {
        GraphName::DefaultGraph => Seq::empty(),
        GraphName::NamedNode(n) => seq![32u8] + iri_text(n.iri@),
        GraphName::BlankNode(b) => seq![32u8] + if index_in(bs, b.id@) >= 0 {
            hashed_label_text(hs[index_in(bs, b.id@)])
        } else {
            label_text(b.id@)
        },
    }
}

/// The lines of the quads, sorted.
pub open spec fn label(qs: Seq<Quad>, bs: Seq<Seq<char>>, hs: Seq<u64>) -> Seq<Seq<u8>> {
    Seq::new(qs.len(), |i: int| quad_line(qs[i], bs, hs)).sort_by(bytes_order())
}

/// The canonical lines for the hashes `hs`, the cells being those of `cells`:
/// the lines where no cell has several nodes or no split is left, else the
/// least outcome of singling out each node of the least such cell.
pub open spec fn distinguish(qs: Seq<Quad>, bs: Seq<Seq<char>>, hs: Seq<u64>, cells: Seq<u64>, fuel: nat) -> Seq<Seq<u8>>
    decreases fuel, 0nat,
{
    match best_cell(cells, cells.len() as int) {
        Some((_, h)) => if fuel > 0 {
            let ms = members(cells, h, cells.len() as int);
            least_outcome(qs, bs, hs, ms, (fuel - 1) as nat, ms.len())
        } else {
            label(qs, bs, hs)
        },
        None => label(qs, bs, hs),
    }
}

/// The outcome of singling out the node at `i`.
pub open spec fn outcome(qs: Seq<Quad>, bs: Seq<Seq<char>>, hs: Seq<u64>, i: int, fuel: nat) -> Seq<Seq<u8>>
    decreases fuel, 1nat,
{
    let marked_hs = hs.update(i, marked(hs[i]));
    let rounds = hash_rounds(qs, bs, marked_hs, 0, bs.len());
    distinguish(qs, bs, rounds.0, rounds.1, fuel)
}

/// The least outcome of singling out each of the first `k` nodes of `ms`.
pub open spec fn least_outcome(qs: Seq<Quad>, bs: Seq<Seq<char>>, hs: Seq<u64>, ms: Seq<int>, fuel: nat, k: nat) -> Seq<Seq<u8>>
    decreases fuel, k + 2,
{
    if k == 0 {
        Seq::empty()
    } else {
        let c = outcome(qs, bs, hs, ms[k - 1], fuel);
        if k == 1 {
            c
        } else {
            let prev = least_outcome(qs, bs, hs, ms, fuel, (k - 1) as nat);
            if !lines_lt(c, prev) {
                prev
            } else {
                c
            }
        }
    }
}

/// The canonical form of quads: two datasets that differ only in the labels
/// of their blank nodes have the same.
pub open spec fn iso_canonical_form(qs: Seq<Quad>) -> Seq<Seq<u8>> {
    let bs = blank_nodes(qs);
    let rounds = hash_rounds(qs, bs, Seq::new(bs.len(), |i: int| 0u64), 0, bs.len());
    distinguish(qs, bs, rounds.0, rounds.1, bs.len())
}


// ---------------------------------------------------------------------------
// Writing text

fn push_bytes(out: &mut Vec<u8>, b: &[u8])
    ensures
        final(out)@ == old(out)@ + b@,
{
    let ghost start = out@;
    let mut i: usize = 0;
    while i < b.len()
        invariant
            i <= b@.len(),
            out@ == start + b@.take(i as int),
        decreases b@.len() - i,
    {
        out.push(b[i]);
        assert(b@.take(i + 1) =~= b@.take(i as int).push(b@[i as int]));
        i = i + 1;
    }
    assert(b@.take(b@.len() as int) =~= b@);
}

fn push_str(out: &mut Vec<u8>, s: &str)
    ensures
        final(out)@ == old(out)@ + encode_utf8(s@),
{
    push_bytes(out, s.as_bytes());
}

fn push_iri(out: &mut Vec<u8>, iri: &str)
    ensures
        final(out)@ == old(out)@ + iri_text(iri@),
{
    let ghost start = out@;
    out.push(60u8);
    push_str(out, iri);
    out.push(62u8);
    assert(out@ =~= start + iri_text(iri@));
}

fn push_quoted(out: &mut Vec<u8>, v: &str)
    ensures
        final(out)@ == old(out)@ + quoted_text(v@),
{
    let ghost start = out@;
    let e = v.escape();
    out.push(34u8);
    push_str(out, e.as_str());
    out.push(34u8);
    assert(out@ =~= start + quoted_text(v@));
}

fn push_label(out: &mut Vec<u8>, id: &str)
    ensures
        final(out)@ == old(out)@ + label_text(id@),
{
    let ghost start = out@;
    out.push(95u8);
    out.push(58u8);
    push_str(out, id);
    assert(out@ =~= start + label_text(id@));
}

fn push_hashed_label(out: &mut Vec<u8>, h: u64)
    ensures
        final(out)@ == old(out)@ + hashed_label_text(h),
{
    let ghost start = out@;
    let text = numerical_blank_node_str(h as u128);
    out.push(95u8);
    out.push(58u8);
    push_str(out, text.as_str());
    assert(out@ =~= start + hashed_label_text(h));
}

/// Writes the text of a term.
fn push_term(out: &mut Vec<u8>, t: &Term)
    ensures
        final(out)@ == old(out)@ + term_text(*t),
    decreases t,
{
    let ghost start = out@;
    match t {
        Term::NamedNode(n) => push_iri(out, n.iri.as_str()),
        Term::BlankNode(b) => push_label(out, b.id.as_str()),
        Term::Literal(Literal::Simple(v)) => push_quoted(out, v.as_str()),
        Term::Literal(Literal::LanguageTagged { value, language }) => {
            push_quoted(out, value.as_str());
            out.push(64u8);
            push_str(out, language.as_str());
            assert(out@ =~= start + term_text(*t));
        },
        Term::Literal(Literal::Typed { value, datatype }) => {
            push_quoted(out, value.as_str());
            out.push(94u8);
            out.push(94u8);
            push_iri(out, datatype.iri.as_str());
            assert(out@ =~= start + term_text(*t));
        },
        Term::Triple(tr) => {
            out.push(60u8);
            out.push(60u8);
            out.push(32u8);
            push_term(out, &tr.subject);
            out.push(32u8);
            push_iri(out, tr.predicate.iri.as_str());
            out.push(32u8);
            push_term(out, &tr.object);
            out.push(32u8);
            out.push(62u8);
            out.push(62u8);
            assert(out@ =~= start + term_text(*t));
        },
    }
}

fn term_text_of(t: &Term) -> (r: Vec<u8>)
    ensures
        r@ == term_text(*t),
{
    let mut out: Vec<u8> = Vec::new();
    push_term(&mut out, t);
    assert(out@ =~= term_text(*t));
    out
}

// ---------------------------------------------------------------------------
// Finding blank nodes

/// The labels that a vector of strings holds.
pub open spec fn label_views(bs: Seq<String>) -> Seq<Seq<char>> {
    bs.map_values(|x: String| x@)
}

proof fn lemma_index_in(bs: Seq<Seq<char>>, x: Seq<char>)
    ensures
        index_in(bs, x) >= 0 <==> bs.contains(x),
        index_in(bs, x) >= 0 ==> index_in(bs, x) < bs.len() && bs[index_in(bs, x)] == x && forall|j: int|
            0 <= j < index_in(bs, x) ==> bs[j] != x,
    decreases bs.len(),
{
    if bs.len() > 0 {
        let init = bs.drop_last();
        lemma_index_in(init, x);
        assert forall|j: int| 0 <= j < init.len() implies bs[j] == #[trigger] init[j] by {}
        if index_in(init, x) >= 0 {
            let k = index_in(init, x);
            assert(bs[k] == init[k]);
            assert forall|j: int| 0 <= j < k implies bs[j] != x by {
                assert(bs[j] == init[j]);
            }
            assert(bs.contains(x));
        } else if bs.last() == x {
            assert forall|j: int| 0 <= j < bs.len() - 1 implies bs[j] != x by {
                assert(bs[j] == init[j]);
                if init[j] == x {
                    assert(init.contains(x));
                }
            }
            assert(bs[bs.len() - 1] == x);
            assert(bs.contains(x));
        } else {
            if bs.contains(x) {
                let j = choose|j: int| 0 <= j < bs.len() && bs[j] == x;
                if j < init.len() {
                    assert(init[j] == x);
                    assert(init.contains(x));
                }
            }
        }
    }
}

/// The position of a label among the labels, if it is there.
fn find_label(bs: &Vec<String>, id: &str) -> (r: Option<usize>)
    ensures
        match r {
            Some(i) => i as int == index_in(label_views(bs@), id@) && i < bs@.len(),
            None => index_in(label_views(bs@), id@) == -1,
        },
{
    proof {
        lemma_index_in(label_views(bs@), id@);
    }
    let mut i: usize = 0;
    while i < bs.len()
        invariant
            i <= bs@.len(),
            forall|j: int| 0 <= j < i ==> label_views(bs@)[j] != id@,
            index_in(label_views(bs@), id@) >= 0 <==> label_views(bs@).contains(id@),
            index_in(label_views(bs@), id@) >= 0 ==> index_in(label_views(bs@), id@) < bs@.len()
                && label_views(bs@)[index_in(label_views(bs@), id@)] == id@ && forall|j: int|
                0 <= j < index_in(label_views(bs@), id@) ==> label_views(bs@)[j] != id@,
        decreases bs@.len() - i,
    {
        assert(label_views(bs@)[i as int] == bs@[i as int]@);
        if str_eq(bs[i].as_str(), id) {
            return Some(i);
        }
        i = i + 1;
    }
    proof {
        if label_views(bs@).contains(id@) {
            let j = choose|j: int| 0 <= j < label_views(bs@).len() && label_views(bs@)[j] == id@;
            assert(label_views(bs@)[j] != id@);
        }
    }
    None
}

fn add_label_exec(bs: &mut Vec<String>, id: Option<&str>)
    ensures
        label_views(final(bs)@) == add_label(
            label_views(old(bs)@),
            match id {
                Some(s) => Some(s@),
                None => None,
            },
        ),
{
    if let Some(s) = id {
        proof {
            lemma_index_in(label_views(bs@), s@);
        }
        if find_label(bs, s).is_none() {
            let ghost before = label_views(bs@);
            bs.push(s.to_owned());
            assert(label_views(bs@) =~= before.push(s@));
        }
    }
}

fn blank_str(t: &Term) -> (r: Option<&str>)
    ensures
        match r {
            Some(s) => blank_of(*t) == Some(s@),
            None => blank_of(*t) is None,
        },
{
    match t {
        Term::BlankNode(b) => Some(b.id.as_str()),
        _ => None,
    }
}

fn graph_blank_str(g: &GraphName) -> (r: Option<&str>)
    ensures
        match r {
            Some(s) => graph_blank_of(*g) == Some(s@),
            None => graph_blank_of(*g) is None,
        },
{
    match g {
        GraphName::BlankNode(b) => Some(b.id.as_str()),
        _ => None,
    }
}

/// The labels of the blank nodes of the quads.
fn collect_blank_nodes(qs: &Vec<Quad>) -> (r: Vec<String>)
    ensures
        label_views(r@) == blank_nodes(qs@),
{
    let mut bs: Vec<String> = Vec::new();
    let mut i: usize = 0;
    assert(label_views(bs@) =~= blank_nodes(qs@.take(0)));
    while i < qs.len()
        invariant
            i <= qs@.len(),
            label_views(bs@) == blank_nodes(qs@.take(i as int)),
        decreases qs@.len() - i,
    {
        let q = &qs[i];
        add_label_exec(&mut bs, blank_str(&q.subject));
        add_label_exec(&mut bs, blank_str(&q.object));
        add_label_exec(&mut bs, graph_blank_str(&q.graph_name));
        assert(qs@.take(i + 1).drop_last() =~= qs@.take(i as int));
        i = i + 1;
    }
    assert(qs@.take(qs@.len() as int) =~= qs@);
    bs
}


// ---------------------------------------------------------------------------
// Hashing neighbourhoods, executably

fn hash_bytes_of(b: &Vec<u8>) -> (r: u64)
    ensures
        r == default_hash_of(b@),
{
    default_hash(b.as_slice())
}

fn iri_hash(iri: &str) -> (r: u64)
    ensures
        r == default_hash_of(iri_text(iri@)),
{
    let mut out: Vec<u8> = Vec::new();
    push_iri(&mut out, iri);
    assert(out@ =~= iri_text(iri@));
    hash_bytes_of(&out)
}

fn term_hash_exec(t: &Term, bs: &Vec<String>, hs: &Vec<u64>) -> (r: u64)
    requires
        hs@.len() == bs@.len(),
    ensures
        r == term_hash(*t, label_views(bs@), hs@),
{
    match blank_str(t) {
        Some(id) => match find_label(bs, id) {
            Some(i) => hs[i],
            None => hash_bytes_of(&term_text_of(t)),
        },
        None => hash_bytes_of(&term_text_of(t)),
    }
}

fn graph_hash_exec(g: &GraphName, bs: &Vec<String>, hs: &Vec<u64>) -> (r: u64)
    requires
        hs@.len() == bs@.len(),
    ensures
        r == graph_hash(*g, label_views(bs@), hs@),
{
    match g {
        GraphName::NamedNode(n) => iri_hash(n.iri.as_str()),
        GraphName::BlankNode(b) => match find_label(bs, b.id.as_str()) {
            Some(i) => hs[i],
            None => {
                let mut out: Vec<u8> = Vec::new();
                push_label(&mut out, b.id.as_str());
                assert(out@ =~= label_text(b.id@));
                hash_bytes_of(&out)
            },
        },
        GraphName::DefaultGraph => 0,
    }
}

fn key4_exec(a: u64, b: u64, c: u64, d: u64) -> (r: Vec<u8>)
    ensures
        r@ == key4(a, b, c, d),
{
    let mut out: Vec<u8> = Vec::new();
    push_bytes(&mut out, &u64_to_be_bytes(a));
    push_bytes(&mut out, &u64_to_be_bytes(b));
    push_bytes(&mut out, &u64_to_be_bytes(c));
    push_bytes(&mut out, &u64_to_be_bytes(d));
    assert(out@ =~= key4(a, b, c, d));
    out
}

fn is_label(x: Option<&str>, id: &str) -> (r: bool)
    ensures
        r == (match x {
            Some(s) => Some(s@),
            None => None,
        } == Some(id@)),
{
    match x {
        Some(s) => str_eq(s, id),
        None => false,
    }
}

fn push_quad_keys(out: &mut Vec<Vec<u8>>, q: &Quad, bs: &Vec<String>, hs: &Vec<u64>, x: &str)
    requires
        hs@.len() == bs@.len(),
    ensures
        byte_views(final(out)@) == byte_views(old(out)@) + quad_keys(*q, label_views(bs@), hs@, x@),
{
    let ghost start = byte_views(out@);
    let ghost lv = label_views(bs@);
    let s = term_hash_exec(&q.subject, bs, hs);
    let p = iri_hash(q.predicate.iri.as_str());
    let o = term_hash_exec(&q.object, bs, hs);
    let g = graph_hash_exec(&q.graph_name, bs, hs);
    let ghost k1: Seq<Seq<u8>> = if blank_of(q.subject) == Some(x@) { seq![key4(p, o, g, 0)] } else { Seq::empty() };
    let ghost k2: Seq<Seq<u8>> = if blank_of(q.object) == Some(x@) { seq![key4(s, p, g, 1)] } else { Seq::empty() };
    let ghost k3: Seq<Seq<u8>> = if graph_blank_of(q.graph_name) == Some(x@) { seq![key4(s, p, o, 2)] } else { Seq::empty() };
    if is_label(blank_str(&q.subject), x) {
        out.push(key4_exec(p, o, g, 0));
    }
    assert(byte_views(out@) =~= start + k1);
    if is_label(blank_str(&q.object), x) {
        out.push(key4_exec(s, p, g, 1));
    }
    assert(byte_views(out@) =~= start + k1 + k2);
    if is_label(graph_blank_str(&q.graph_name), x) {
        out.push(key4_exec(s, p, o, 2));
    }
    assert(byte_views(out@) =~= start + k1 + k2 + k3);
    assert(quad_keys(*q, lv, hs@, x@) == k1 + k2 + k3);
    assert(byte_views(out@) =~= start + quad_keys(*q, lv, hs@, x@));
}

fn neighbour_keys_exec(qs: &Vec<Quad>, bs: &Vec<String>, hs: &Vec<u64>, x: &str) -> (r: Vec<Vec<u8>>)
    requires
        hs@.len() == bs@.len(),
    ensures
        byte_views(r@) == neighbour_keys(qs@, label_views(bs@), hs@, x@),
{
    let mut out: Vec<Vec<u8>> = Vec::new();
    let mut i: usize = 0;
    assert(byte_views(out@) =~= neighbour_keys(qs@.take(0), label_views(bs@), hs@, x@));
    while i < qs.len()
        invariant
            hs@.len() == bs@.len(),
            i <= qs@.len(),
            byte_views(out@) == neighbour_keys(qs@.take(i as int), label_views(bs@), hs@, x@),
        decreases qs@.len() - i,
    {
        push_quad_keys(&mut out, &qs[i], bs, hs, x);
        assert(qs@.take(i + 1).drop_last() =~= qs@.take(i as int));
        i = i + 1;
    }
    assert(qs@.take(qs@.len() as int) =~= qs@);
    out
}

fn round_hash_exec(qs: &Vec<Quad>, bs: &Vec<String>, hs: &Vec<u64>, i: usize) -> (r: u64)
    requires
        hs@.len() == bs@.len(),
        i < bs@.len(),
    ensures
        r == round_hash(qs@, label_views(bs@), hs@, i as int),
{
    let keys = neighbour_keys_exec(qs, bs, hs, bs[i].as_str());
    let sorted = sort_byte_strings(keys);
    let ghost ks = byte_views(sorted@);
    let mut buf: Vec<u8> = Vec::new();
    push_bytes(&mut buf, &u64_to_be_bytes(hs[i]));
    let ghost head = buf@;
    let mut j: usize = 0;
    assert(buf@ =~= head + concat_all(ks.take(0)));
    while j < sorted.len()
        invariant
            j <= sorted@.len(),
            ks == byte_views(sorted@),
            buf@ == head + concat_all(ks.take(j as int)),
        decreases sorted@.len() - j,
    {
        push_bytes(&mut buf, sorted[j].as_slice());
        assert(ks.take(j + 1).drop_last() =~= ks.take(j as int));
        assert(ks[j as int] == sorted@[j as int]@);
        assert(buf@ =~= head + concat_all(ks.take(j + 1)));
        j = j + 1;
    }
    assert(ks.take(ks.len() as int) =~= ks);
    assert(label_views(bs@)[i as int] == bs@[i as int]@);
    hash_bytes_of(&buf)
}

fn refine_exec(qs: &Vec<Quad>, bs: &Vec<String>, hs: &Vec<u64>) -> (r: Vec<u64>)
    requires
        hs@.len() == bs@.len(),
    ensures
        r@ == refine(qs@, label_views(bs@), hs@),
        r@.len() == bs@.len(),
{
    let mut out: Vec<u64> = Vec::new();
    let mut i: usize = 0;
    while i < bs.len()
        invariant
            hs@.len() == bs@.len(),
            i <= bs@.len(),
            out@.len() == i,
            forall|j: int| 0 <= j < i ==> out@[j] == round_hash(qs@, label_views(bs@), hs@, j),
        decreases bs@.len() - i,
    {
        out.push(round_hash_exec(qs, bs, hs, i));
        i = i + 1;
    }
    assert(out@ =~= refine(qs@, label_views(bs@), hs@));
    out
}


proof fn lemma_distinct_count_bound(hs: Seq<u64>)
    ensures
        distinct_count(hs) <= hs.len(),
    decreases hs.len(),
{
    if hs.len() > 0 {
        lemma_distinct_count_bound(hs.drop_last());
    }
}

fn distinct_count_exec(hs: &Vec<u64>) -> (r: usize)
    ensures
        r == distinct_count(hs@),
{
    let mut c: usize = 0;
    let mut i: usize = 0;
    while i < hs.len()
        invariant
            i <= hs@.len(),
            c == distinct_count(hs@.take(i as int)),
            c <= i,
        decreases hs@.len() - i,
    {
        let ghost t = hs@.take(i as int + 1);
        assert(t.drop_last() =~= hs@.take(i as int));
        assert(t.last() == hs@[i as int]);
        let mut j: usize = 0;
        let mut seen = false;
        while j < i
            invariant
                i < hs@.len(),
                j <= i,
                seen <==> exists|k: int| 0 <= k < j && hs@[k] == hs@[i as int],
            decreases i - j,
        {
            if hs[j] == hs[i] {
                seen = true;
            }
            j = j + 1;
        }
        proof {
            let init = hs@.take(i as int);
            if seen {
                let k = choose|k: int| 0 <= k < i && hs@[k] == hs@[i as int];
                assert(init[k] == hs@[i as int]);
            } else {
                assert forall|k: int| 0 <= k < init.len() implies init[k] != hs@[i as int] by {
                    assert(init[k] == hs@[k]);
                }
            }
        }
        if !seen {
            c = c + 1;
        }
        i = i + 1;
    }
    assert(hs@.take(hs@.len() as int) =~= hs@);
    c
}

/// Refines the hashes until the partition is stable, or the fuel is spent.
fn hash_rounds_exec(qs: &Vec<Quad>, bs: &Vec<String>, hs: Vec<u64>, cells: usize, fuel: usize) -> (r: (Vec<u64>, Vec<u64>))
    requires
        hs@.len() == bs@.len(),
    ensures
        (r.0@, r.1@) == hash_rounds(qs@, label_views(bs@), hs@, cells as nat, fuel as nat),
        r.0@.len() == bs@.len(),
        r.1@.len() == bs@.len(),
    decreases fuel,
{
    let next = refine_exec(qs, bs, &hs);
    let n = distinct_count_exec(&next);
    if n == cells || fuel == 0 {
        (hs, next)
    } else {
        hash_rounds_exec(qs, bs, next, n, fuel - 1)
    }
}

proof fn lemma_count_of_bound(hs: Seq<u64>, h: u64)
    ensures
        count_of(hs, h) <= hs.len(),
    decreases hs.len(),
{
    if hs.len() > 0 {
        lemma_count_of_bound(hs.drop_last(), h);
    }
}

fn count_of_exec(hs: &Vec<u64>, h: u64) -> (r: usize)
    ensures
        r == count_of(hs@, h),
{
    let mut c: usize = 0;
    let mut i: usize = 0;
    while i < hs.len()
        invariant
            i <= hs@.len(),
            c == count_of(hs@.take(i as int), h),
            c <= i,
        decreases hs@.len() - i,
    {
        assert(hs@.take(i as int + 1).drop_last() =~= hs@.take(i as int));
        if hs[i] == h {
            c = c + 1;
        }
        i = i + 1;
    }
    assert(hs@.take(hs@.len() as int) =~= hs@);
    c
}

fn best_cell_exec(hs: &Vec<u64>) -> (r: Option<(usize, u64)>)
    ensures
        match r {
            Some((c, h)) => best_cell(hs@, hs@.len() as int) == Some((c as nat, h)),
            None => best_cell(hs@, hs@.len() as int) is None,
        },
{
    let mut best: Option<(usize, u64)> = None;
    let mut k: usize = 0;
    while k < hs.len()
        invariant
            k <= hs@.len(),
            match best {
                Some((c, h)) => best_cell(hs@, k as int) == Some((c as nat, h)),
                None => best_cell(hs@, k as int) is None,
            },
        decreases hs@.len() - k,
    {
        let c = count_of_exec(hs, hs[k]);
        if c > 1 {
            match best {
                Some((pc, ph)) => {
                    if c < pc || (c == pc && hs[k] < ph) {
                        best = Some((c, hs[k]));
                    }
                },
                None => {
                    best = Some((c, hs[k]));
                },
            }
        }
        k = k + 1;
    }
    best
}

/// Positions as integers.
pub open spec fn position_views(v: Seq<usize>) -> Seq<int> {
    v.map_values(|x: usize| x as int)
}

fn members_exec(hs: &Vec<u64>, h: u64) -> (r: Vec<usize>)
    ensures
        position_views(r@) == members(hs@, h, hs@.len() as int),
        forall|j: int| 0 <= j < r@.len() ==> #[trigger] r@[j] < hs@.len(),
{
    let mut out: Vec<usize> = Vec::new();
    let mut k: usize = 0;
    assert(position_views(out@) =~= members(hs@, h, 0));
    while k < hs.len()
        invariant
            k <= hs@.len(),
            position_views(out@) == members(hs@, h, k as int),
            forall|j: int| 0 <= j < out@.len() ==> #[trigger] out@[j] < k,
        decreases hs@.len() - k,
    {
        let ghost before = position_views(out@);
        if hs[k] == h {
            out.push(k);
            assert(position_views(out@) =~= before.push(k as int));
        }
        k = k + 1;
    }
    out
}

/// Compares lists of byte strings in lexicographic order.
fn lines_less(a: &Vec<Vec<u8>>, b: &Vec<Vec<u8>>) -> (r: bool)
    ensures
        r == lines_lt(byte_views(a@), byte_views(b@)),
{
    let ghost av = byte_views(a@);
    let ghost bv = byte_views(b@);
    let mut i: usize = 0;
    assert(av.skip(0) =~= av && bv.skip(0) =~= bv);
    loop
        invariant
            av == byte_views(a@),
            bv == byte_views(b@),
            i <= a@.len(),
            i <= b@.len(),
            lines_lt(av, bv) == lines_lt(av.skip(i as int), bv.skip(i as int)),
        decreases a@.len() - i,
    {
        if i == a.len() {
            return i < b.len();
        }
        if i == b.len() {
            return false;
        }
        assert(av.skip(i as int)[0] == a@[i as int]@);
        assert(bv.skip(i as int)[0] == b@[i as int]@);
        match compare_bytes(a[i].as_slice(), b[i].as_slice()) {
            Cmp::Less => {
                return true;
            },
            Cmp::Greater => {
                proof {
                    lemma_lex_asymmetric(b@[i as int]@, a@[i as int]@);
                }
                return false;
            },
            Cmp::Equal => {
                assert(av.skip(i as int).drop_first() =~= av.skip(i + 1));
                assert(bv.skip(i as int).drop_first() =~= bv.skip(i + 1));
                i = i + 1;
            },
        }
    }
}

fn marked_exec(h: u64) -> (r: u64)
    ensures
        r == marked(h),
{
    let mut buf: Vec<u8> = Vec::new();
    push_bytes(&mut buf, &u64_to_be_bytes(h));
    push_bytes(&mut buf, &u64_to_be_bytes(22));
    assert(buf@ =~= u64_to_be(h) + u64_to_be(22));
    hash_bytes_of(&buf)
}


// ---------------------------------------------------------------------------
// Labelling and splitting, executably

fn push_labelled_term(out: &mut Vec<u8>, t: &Term, bs: &Vec<String>, hs: &Vec<u64>)
    requires
        hs@.len() == bs@.len(),
    ensures
        final(out)@ == old(out)@ + labelled_term_text(*t, label_views(bs@), hs@),
{
    match blank_str(t) {
        Some(id) => match find_label(bs, id) {
            Some(i) => push_hashed_label(out, hs[i]),
            None => push_term(out, t),
        },
        None => push_term(out, t),
    }
}

fn quad_line_exec(q: &Quad, bs: &Vec<String>, hs: &Vec<u64>) -> (r: Vec<u8>)
    requires
        hs@.len() == bs@.len(),
    ensures
        r@ == quad_line(*q, label_views(bs@), hs@),
{
    let ghost lv = label_views(bs@);
    let mut out: Vec<u8> = Vec::new();
    push_labelled_term(&mut out, &q.subject, bs, hs);
    out.push(32u8);
    push_iri(&mut out, q.predicate.iri.as_str());
    out.push(32u8);
    push_labelled_term(&mut out, &q.object, bs, hs);
    let ghost head = out@;
    assert(head =~= labelled_term_text(q.subject, lv, hs@) + seq![32u8] + iri_text(q.predicate.iri@) + seq![32u8]
        + labelled_term_text(q.object, lv, hs@));
    match &q.graph_name {
        GraphName::DefaultGraph => {},
        GraphName::NamedNode(n) => {
            out.push(32u8);
            push_iri(&mut out, n.iri.as_str());
        },
        GraphName::BlankNode(b) => {
            out.push(32u8);
            match find_label(bs, b.id.as_str()) {
                Some(i) => push_hashed_label(&mut out, hs[i]),
                None => push_label(&mut out, b.id.as_str()),
            }
        },
    }
    assert(out@ =~= quad_line(*q, lv, hs@));
    out
}

fn label_exec(qs: &Vec<Quad>, bs: &Vec<String>, hs: &Vec<u64>) -> (r: Vec<Vec<u8>>)
    requires
        hs@.len() == bs@.len(),
    ensures
        byte_views(r@) == label(qs@, label_views(bs@), hs@),
{
    let ghost lv = label_views(bs@);
    let mut lines: Vec<Vec<u8>> = Vec::new();
    let mut i: usize = 0;
    while i < qs.len()
        invariant
            hs@.len() == bs@.len(),
            lv == label_views(bs@),
            i <= qs@.len(),
            lines@.len() == i,
            forall|j: int| 0 <= j < i ==> #[trigger] lines@[j]@ == quad_line(qs@[j], lv, hs@),
        decreases qs@.len() - i,
    {
        lines.push(quad_line_exec(&qs[i], bs, hs));
        i = i + 1;
    }
    assert(byte_views(lines@) =~= Seq::new(qs@.len(), |j: int| quad_line(qs@[j], lv, hs@)));
    sort_byte_strings(lines)
}

fn distinguish_exec(qs: &Vec<Quad>, bs: &Vec<String>, hs: &Vec<u64>, cells: &Vec<u64>, fuel: usize) -> (r: Vec<Vec<u8>>)
    requires
        hs@.len() == bs@.len(),
        cells@.len() == bs@.len(),
    ensures
        byte_views(r@) == distinguish(qs@, label_views(bs@), hs@, cells@, fuel as nat),
    decreases fuel, 0nat,
{
    match best_cell_exec(cells) {
        Some((_, h)) => {
            if fuel > 0 {
                let ms = members_exec(cells, h);
                least_outcome_exec(qs, bs, hs, &ms, fuel - 1, ms.len())
            } else {
                label_exec(qs, bs, hs)
            }
        },
        None => label_exec(qs, bs, hs),
    }
}

fn outcome_exec(qs: &Vec<Quad>, bs: &Vec<String>, hs: &Vec<u64>, i: usize, fuel: usize) -> (r: Vec<Vec<u8>>)
    requires
        hs@.len() == bs@.len(),
        i < hs@.len(),
    ensures
        byte_views(r@) == outcome(qs@, label_views(bs@), hs@, i as int, fuel as nat),
    decreases fuel, 1nat,
{
    let mut m: Vec<u64> = Vec::new();
    let mut j: usize = 0;
    while j < hs.len()
        invariant
            j <= hs@.len(),
            i < hs@.len(),
            m@ == hs@.update(i as int, marked(hs@[i as int])).take(j as int),
        decreases hs@.len() - j,
    {
        if j == i {
            m.push(marked_exec(hs[i]));
        } else {
            m.push(hs[j]);
        }
        assert(m@ =~= hs@.update(i as int, marked(hs@[i as int])).take(j + 1));
        j = j + 1;
    }
    assert(m@ =~= hs@.update(i as int, marked(hs@[i as int])));
    let rounds = hash_rounds_exec(qs, bs, m, 0, bs.len());
    distinguish_exec(qs, bs, &rounds.0, &rounds.1, fuel)
}

fn least_outcome_exec(qs: &Vec<Quad>, bs: &Vec<String>, hs: &Vec<u64>, ms: &Vec<usize>, fuel: usize, k: usize) -> (r: Vec<Vec<u8>>)
    requires
        hs@.len() == bs@.len(),
        k <= ms@.len(),
        forall|j: int| 0 <= j < ms@.len() ==> #[trigger] ms@[j] < hs@.len(),
    ensures
        byte_views(r@) == least_outcome(qs@, label_views(bs@), hs@, position_views(ms@), fuel as nat, k as nat),
    decreases fuel, k + 2,
{
    if k == 0 {
        let r: Vec<Vec<u8>> = Vec::new();
        assert(byte_views(r@) =~= Seq::<Seq<u8>>::empty());
        r
    } else {
        assert(position_views(ms@)[k - 1] == ms@[k - 1] as int);
        let c = outcome_exec(qs, bs, hs, ms[k - 1], fuel);
        if k == 1 {
            c
        } else {
            let prev = least_outcome_exec(qs, bs, hs, ms, fuel, k - 1);
            if !lines_less(&c, &prev) {
                prev
            } else {
                c
            }
        }
    }
}

/// The canonical form of a list of quads: its lines, each blank node written
/// by a hash of its place among the quads, in sorted order.
pub fn canonical_form(qs: &Vec<Quad>) -> (r: Vec<Vec<u8>>)
    ensures
        byte_views(r@) == iso_canonical_form(qs@),
{
    let bs = collect_blank_nodes(qs);
    let mut zeros: Vec<u64> = Vec::new();
    let mut i: usize = 0;
    while i < bs.len()
        invariant
            i <= bs@.len(),
            zeros@ == Seq::new(i as nat, |j: int| 0u64),
        decreases bs@.len() - i,
    {
        zeros.push(0);
        assert(zeros@ =~= Seq::new((i + 1) as nat, |j: int| 0u64));
        i = i + 1;
    }
    let rounds = hash_rounds_exec(qs, &bs, zeros, 0, bs.len());
    distinguish_exec(qs, &bs, &rounds.0, &rounds.1, bs.len())
}


/// Whether two lists of byte strings are the same.
pub(crate) fn same_lines(a: &Vec<Vec<u8>>, b: &Vec<Vec<u8>>) -> (r: bool)
    ensures
        r == (byte_views(a@) == byte_views(b@)),
{
    if a.len() != b.len() {
        assert(byte_views(a@).len() != byte_views(b@).len());
        return false;
    }
    let mut i: usize = 0;
    while i < a.len()
        invariant
            a@.len() == b@.len(),
            i <= a@.len(),
            forall|j: int| 0 <= j < i ==> #[trigger] a@[j]@ == b@[j]@,
        decreases a@.len() - i,
    {
        if compare_bytes(a[i].as_slice(), b[i].as_slice()) != Cmp::Equal {
            assert(byte_views(a@)[i as int] != byte_views(b@)[i as int]);
            return false;
        }
        i = i + 1;
    }
    assert(byte_views(a@) =~= byte_views(b@));
    true
}


// ---------------------------------------------------------------------------
// Renaming blank nodes

/// Whether a map of labels never sends two labels to one.
pub open spec fn injective_labels(f: spec_fn(Seq<char>) -> Seq<char>) -> bool {
    forall|a: Seq<char>, b: Seq<char>| #[trigger] f(a) == #[trigger] f(b) ==> a == b
}

/// Whether `t2` is `t` with its label renamed by `f` where `t` is a blank
/// node, and `t` itself otherwise.
pub open spec fn renamed_term(t: Term, t2: Term, f: spec_fn(Seq<char>) -> Seq<char>) -> bool {
    match t {
        Term::BlankNode(b) => t2 matches Term::BlankNode(b2) && b2.id@ == f(b.id@),
        _ => t2 == t,
    }
}

/// Whether `g2` is `g` with its label renamed by `f` where `g` is a blank
/// node, and `g` itself otherwise.
pub open spec fn renamed_graph(g: GraphName, g2: GraphName, f: spec_fn(Seq<char>) -> Seq<char>) -> bool {
    match g {
        GraphName::BlankNode(b) => g2 matches GraphName::BlankNode(b2) && b2.id@ == f(b.id@),
        _ => g2 == g,
    }
}

/// Whether `q2` is `q` with the blank nodes of its subject, object and
/// graph name renamed by `f`.
pub open spec fn renamed_quad(q: Quad, q2: Quad, f: spec_fn(Seq<char>) -> Seq<char>) -> bool {
    &&& renamed_term(q.subject, q2.subject, f)
    &&& q2.predicate == q.predicate
    &&& renamed_term(q.object, q2.object, f)
    &&& renamed_graph(q.graph_name, q2.graph_name, f)
}

/// Whether `qs2` is `qs`, quad by quad, with blank nodes renamed by `f`.
pub open spec fn renamed_quads(qs: Seq<Quad>, qs2: Seq<Quad>, f: spec_fn(Seq<char>) -> Seq<char>) -> bool {
    qs2.len() == qs.len() && forall|i: int| 0 <= i < qs.len() ==> renamed_quad(#[trigger] qs[i], qs2[i], f)
}

/// Whether the blank nodes of a quad are among the labels `bs`.
pub open spec fn blanks_among(q: Quad, bs: Seq<Seq<char>>) -> bool {
    &&& (blank_of(q.subject) matches Some(x) ==> bs.contains(x))
    &&& (blank_of(q.object) matches Some(x) ==> bs.contains(x))
    &&& (graph_blank_of(q.graph_name) matches Some(x) ==> bs.contains(x))
}

proof fn lemma_add_label_renamed(bs: Seq<Seq<char>>, x: Option<Seq<char>>, y: Option<Seq<char>>, f: spec_fn(Seq<char>) -> Seq<char>)
    requires
        injective_labels(f),
        match x {
            Some(a) => y == Some(f(a)),
            None => y is None,
        },
    ensures
        add_label(bs.map_values(f), y) == add_label(bs, x).map_values(f),
        x matches Some(a) ==> add_label(bs, x).contains(a),
        forall|a: Seq<char>| bs.contains(a) ==> #[trigger] add_label(bs, x).contains(a),
{
    if let Some(a) = x {
        let m = bs.map_values(f);
        if bs.contains(a) {
            let j = choose|j: int| 0 <= j < bs.len() && bs[j] == a;
            assert(m[j] == f(a));
        } else {
            if m.contains(f(a)) {
                let j = choose|j: int| 0 <= j < m.len() && m[j] == f(a);
                assert(f(bs[j]) == f(a));
            }
            assert(m.push(f(a)) =~= bs.push(a).map_values(f));
            assert(bs.push(a)[bs.len() as int] == a);
            assert forall|b: Seq<char>| bs.contains(b) implies #[trigger] bs.push(a).contains(b) by {
                let j = choose|j: int| 0 <= j < bs.len() && bs[j] == b;
                assert(bs.push(a)[j] == b);
            }
        }
    }
}

proof fn lemma_blank_nodes_renamed(qs: Seq<Quad>, qs2: Seq<Quad>, f: spec_fn(Seq<char>) -> Seq<char>)
    requires
        injective_labels(f),
        renamed_quads(qs, qs2, f),
    ensures
        blank_nodes(qs2) == blank_nodes(qs).map_values(f),
        forall|i: int| 0 <= i < qs.len() ==> blanks_among(#[trigger] qs[i], blank_nodes(qs)),
    decreases qs.len(),
{
    if qs.len() > 0 {
        let init = qs.drop_last();
        let init2 = qs2.drop_last();
        assert forall|i: int| 0 <= i < init.len() implies renamed_quad(#[trigger] init[i], init2[i], f) by {
            assert(renamed_quad(qs[i], qs2[i], f));
        }
        lemma_blank_nodes_renamed(init, init2, f);
        let q = qs.last();
        let q2 = qs2.last();
        assert(renamed_quad(qs[qs.len() - 1], qs2[qs.len() - 1], f));
        let b0 = blank_nodes(init);
        let b1 = add_label(b0, blank_of(q.subject));
        let b2 = add_label(b1, blank_of(q.object));
        lemma_add_label_renamed(b0, blank_of(q.subject), blank_of(q2.subject), f);
        lemma_add_label_renamed(b1, blank_of(q.object), blank_of(q2.object), f);
        lemma_add_label_renamed(b2, graph_blank_of(q.graph_name), graph_blank_of(q2.graph_name), f);
        let b3 = blank_nodes(qs);
        assert forall|i: int| 0 <= i < qs.len() implies blanks_among(#[trigger] qs[i], b3) by {
            if i < init.len() {
                assert(init[i] == qs[i]);
                assert(blanks_among(init[i], b0));
            }
        }
    }
}

proof fn lemma_index_in_renamed(bs: Seq<Seq<char>>, x: Seq<char>, f: spec_fn(Seq<char>) -> Seq<char>)
    requires
        injective_labels(f),
    ensures
        index_in(bs.map_values(f), f(x)) == index_in(bs, x),
    decreases bs.len(),
{
    if bs.len() > 0 {
        lemma_index_in_renamed(bs.drop_last(), x, f);
        assert(bs.map_values(f).drop_last() =~= bs.drop_last().map_values(f));
    }
}

proof fn lemma_quad_keys_renamed(q: Quad, q2: Quad, bs: Seq<Seq<char>>, hs: Seq<u64>, x: Seq<char>, f: spec_fn(Seq<char>) -> Seq<char>)
    requires
        injective_labels(f),
        renamed_quad(q, q2, f),
        blanks_among(q, bs),
    ensures
        quad_keys(q2, bs.map_values(f), hs, f(x)) == quad_keys(q, bs, hs, x),
        quad_line(q2, bs.map_values(f), hs) == quad_line(q, bs, hs),
{
    let bs2 = bs.map_values(f);
    if let Some(a) = blank_of(q.subject) {
        lemma_index_in_renamed(bs, a, f);
        lemma_index_in(bs, a);
    }
    if let Some(a) = blank_of(q.object) {
        lemma_index_in_renamed(bs, a, f);
        lemma_index_in(bs, a);
    }
    if let Some(a) = graph_blank_of(q.graph_name) {
        lemma_index_in_renamed(bs, a, f);
        lemma_index_in(bs, a);
    }
    assert(term_hash(q2.subject, bs2, hs) == term_hash(q.subject, bs, hs));
    assert(term_hash(q2.object, bs2, hs) == term_hash(q.object, bs, hs));
    assert(graph_hash(q2.graph_name, bs2, hs) == graph_hash(q.graph_name, bs, hs));
    assert(labelled_term_text(q2.subject, bs2, hs) == labelled_term_text(q.subject, bs, hs));
    assert(labelled_term_text(q2.object, bs2, hs) == labelled_term_text(q.object, bs, hs));
}

proof fn lemma_neighbour_keys_renamed(
    qs: Seq<Quad>,
    qs2: Seq<Quad>,
    bs: Seq<Seq<char>>,
    hs: Seq<u64>,
    x: Seq<char>,
    f: spec_fn(Seq<char>) -> Seq<char>,
)
    requires
        injective_labels(f),
        renamed_quads(qs, qs2, f),
        forall|i: int| 0 <= i < qs.len() ==> blanks_among(#[trigger] qs[i], bs),
    ensures
        neighbour_keys(qs2, bs.map_values(f), hs, f(x)) == neighbour_keys(qs, bs, hs, x),
    decreases qs.len(),
{
    if qs.len() > 0 {
        let init = qs.drop_last();
        let init2 = qs2.drop_last();
        assert forall|i: int| 0 <= i < init.len() implies renamed_quad(#[trigger] init[i], init2[i], f) by {
            assert(renamed_quad(qs[i], qs2[i], f));
        }
        assert forall|i: int| 0 <= i < init.len() implies blanks_among(#[trigger] init[i], bs) by {
            assert(blanks_among(qs[i], bs));
        }
        lemma_neighbour_keys_renamed(init, init2, bs, hs, x, f);
        assert(renamed_quad(qs[qs.len() - 1], qs2[qs.len() - 1], f));
        assert(blanks_among(qs[qs.len() - 1], bs));
        lemma_quad_keys_renamed(qs.last(), qs2.last(), bs, hs, x, f);
    }
}

proof fn lemma_refine_renamed(qs: Seq<Quad>, qs2: Seq<Quad>, bs: Seq<Seq<char>>, hs: Seq<u64>, f: spec_fn(Seq<char>) -> Seq<char>)
    requires
        injective_labels(f),
        renamed_quads(qs, qs2, f),
        forall|i: int| 0 <= i < qs.len() ==> blanks_among(#[trigger] qs[i], bs),
    ensures
        refine(qs2, bs.map_values(f), hs) == refine(qs, bs, hs),
{
    let bs2 = bs.map_values(f);
    assert forall|i: int| 0 <= i < bs.len() implies #[trigger] round_hash(qs2, bs2, hs, i) == round_hash(qs, bs, hs, i) by {
        lemma_neighbour_keys_renamed(qs, qs2, bs, hs, bs[i], f);
        assert(bs2[i] == f(bs[i]));
    }
    assert(refine(qs2, bs2, hs) =~= refine(qs, bs, hs));
}

proof fn lemma_hash_rounds_renamed(
    qs: Seq<Quad>,
    qs2: Seq<Quad>,
    bs: Seq<Seq<char>>,
    hs: Seq<u64>,
    cells: nat,
    fuel: nat,
    f: spec_fn(Seq<char>) -> Seq<char>,
)
    requires
        injective_labels(f),
        renamed_quads(qs, qs2, f),
        forall|i: int| 0 <= i < qs.len() ==> blanks_among(#[trigger] qs[i], bs),
    ensures
        hash_rounds(qs2, bs.map_values(f), hs, cells, fuel) == hash_rounds(qs, bs, hs, cells, fuel),
    decreases fuel,
{
    lemma_refine_renamed(qs, qs2, bs, hs, f);
    let next = refine(qs, bs, hs);
    if !(distinct_count(next) == cells || fuel == 0) {
        lemma_hash_rounds_renamed(qs, qs2, bs, next, distinct_count(next), (fuel - 1) as nat, f);
    }
}

proof fn lemma_label_renamed(qs: Seq<Quad>, qs2: Seq<Quad>, bs: Seq<Seq<char>>, hs: Seq<u64>, f: spec_fn(Seq<char>) -> Seq<char>)
    requires
        injective_labels(f),
        renamed_quads(qs, qs2, f),
        forall|i: int| 0 <= i < qs.len() ==> blanks_among(#[trigger] qs[i], bs),
    ensures
        label(qs2, bs.map_values(f), hs) == label(qs, bs, hs),
{
    let bs2 = bs.map_values(f);
    assert forall|i: int| 0 <= i < qs.len() implies #[trigger] quad_line(qs2[i], bs2, hs) == quad_line(qs[i], bs, hs) by {
        assert(renamed_quad(qs[i], qs2[i], f));
        assert(blanks_among(qs[i], bs));
        lemma_quad_keys_renamed(qs[i], qs2[i], bs, hs, Seq::empty(), f);
    }
    assert(Seq::new(qs2.len(), |i: int| quad_line(qs2[i], bs2, hs)) =~= Seq::new(qs.len(), |i: int| quad_line(qs[i], bs, hs)));
}

proof fn lemma_distinguish_renamed(
    qs: Seq<Quad>,
    qs2: Seq<Quad>,
    bs: Seq<Seq<char>>,
    hs: Seq<u64>,
    cells: Seq<u64>,
    fuel: nat,
    f: spec_fn(Seq<char>) -> Seq<char>,
)
    requires
        injective_labels(f),
        renamed_quads(qs, qs2, f),
        forall|i: int| 0 <= i < qs.len() ==> blanks_among(#[trigger] qs[i], bs),
    ensures
        distinguish(qs2, bs.map_values(f), hs, cells, fuel) == distinguish(qs, bs, hs, cells, fuel),
    decreases fuel, 0nat,
{
    lemma_label_renamed(qs, qs2, bs, hs, f);
    match best_cell(cells, cells.len() as int) {
        Some((_, h)) => if fuel > 0 {
            let ms = members(cells, h, cells.len() as int);
            lemma_least_outcome_renamed(qs, qs2, bs, hs, ms, (fuel - 1) as nat, ms.len(), f);
        },
        None => {},
    }
}

proof fn lemma_outcome_renamed(
    qs: Seq<Quad>,
    qs2: Seq<Quad>,
    bs: Seq<Seq<char>>,
    hs: Seq<u64>,
    i: int,
    fuel: nat,
    f: spec_fn(Seq<char>) -> Seq<char>,
)
    requires
        injective_labels(f),
        renamed_quads(qs, qs2, f),
        forall|j: int| 0 <= j < qs.len() ==> blanks_among(#[trigger] qs[j], bs),
    ensures
        outcome(qs2, bs.map_values(f), hs, i, fuel) == outcome(qs, bs, hs, i, fuel),
    decreases fuel, 1nat,
{
    let marked_hs = hs.update(i, marked(hs[i]));
    lemma_hash_rounds_renamed(qs, qs2, bs, marked_hs, 0, bs.len(), f);
    let rounds = hash_rounds(qs, bs, marked_hs, 0, bs.len());
    lemma_distinguish_renamed(qs, qs2, bs, rounds.0, rounds.1, fuel, f);
}

proof fn lemma_least_outcome_renamed(
    qs: Seq<Quad>,
    qs2: Seq<Quad>,
    bs: Seq<Seq<char>>,
    hs: Seq<u64>,
    ms: Seq<int>,
    fuel: nat,
    k: nat,
    f: spec_fn(Seq<char>) -> Seq<char>,
)
    requires
        injective_labels(f),
        renamed_quads(qs, qs2, f),
        forall|j: int| 0 <= j < qs.len() ==> blanks_among(#[trigger] qs[j], bs),
    ensures
        least_outcome(qs2, bs.map_values(f), hs, ms, fuel, k) == least_outcome(qs, bs, hs, ms, fuel, k),
    decreases fuel, k + 2,
{
    if k > 0 {
        lemma_outcome_renamed(qs, qs2, bs, hs, ms[k - 1], fuel, f);
        if k > 1 {
            lemma_least_outcome_renamed(qs, qs2, bs, hs, ms, fuel, (k - 1) as nat, f);
        }
    }
}

/// Renaming the blank nodes of a dataset one for one, at the subject,
/// object and graph name of its quads, leaves its canonical form unchanged.
pub proof fn lemma_canonical_form_renaming(qs: Seq<Quad>, qs2: Seq<Quad>, f: spec_fn(Seq<char>) -> Seq<char>)
    requires
        injective_labels(f),
        renamed_quads(qs, qs2, f),
    ensures
        iso_canonical_form(qs2) == iso_canonical_form(qs),
{
    lemma_blank_nodes_renamed(qs, qs2, f);
    let bs = blank_nodes(qs);
    let zeros = Seq::new(bs.len(), |i: int| 0u64);
    assert(blank_nodes(qs2).len() == bs.len());
    assert(Seq::new(blank_nodes(qs2).len(), |i: int| 0u64) =~= zeros);
    lemma_hash_rounds_renamed(qs, qs2, bs, zeros, 0, bs.len(), f);
    let rounds = hash_rounds(qs, bs, zeros, 0, bs.len());
    lemma_distinguish_renamed(qs, qs2, bs, rounds.0, rounds.1, bs.len(), f);
}


// ---------------------------------------------------------------------------
// Mapping lists of the same values

proof fn lemma_map_to_multiset<A, B>(s: Seq<A>, t: Seq<A>, f: spec_fn(A) -> B)
    requires
        s.to_multiset() == t.to_multiset(),
    ensures
        s.map_values(f).to_multiset() == t.map_values(f).to_multiset(),
    decreases s.len(),
{
    vstd::seq_lib::to_multiset_len(s);
    vstd::seq_lib::to_multiset_len(t);
    if s.len() > 0 {
        let x = s.last();
        vstd::seq_lib::to_multiset_build(s.drop_last(), x);
        assert(s.drop_last().push(x) =~= s);
        assert(t.to_multiset().count(x) > 0);
        vstd::seq_lib::to_multiset_contains(t, x);
        let j = choose|j: int| 0 <= j < t.len() && t[j] == x;
        vstd::seq_lib::to_multiset_remove(t, j);
        assert(t.remove(j).to_multiset() =~= s.drop_last().to_multiset());
        lemma_map_to_multiset(s.drop_last(), t.remove(j), f);
        let ms = s.map_values(f);
        let mt = t.map_values(f);
        assert(ms.drop_last() =~= s.drop_last().map_values(f));
        vstd::seq_lib::to_multiset_build(ms.drop_last(), f(x));
        assert(ms.drop_last().push(f(x)) =~= ms);
        assert(mt.remove(j) =~= t.remove(j).map_values(f));
        vstd::seq_lib::to_multiset_remove(mt, j);
        assert(mt.to_multiset() =~= mt.remove(j).to_multiset().insert(f(x)));
    }
}

// ---------------------------------------------------------------------------
// What the choices depend on

proof fn lemma_count_of_multiset(hs: Seq<u64>, h: u64)
    ensures
        count_of(hs, h) == hs.to_multiset().count(h),
    decreases hs.len(),
{
    if hs.len() > 0 {
        lemma_count_of_multiset(hs.drop_last(), h);
        assert(hs.drop_last().push(hs.last()) =~= hs);
    }
}

proof fn lemma_distinct_count_set(hs: Seq<u64>)
    ensures
        distinct_count(hs) == hs.to_set().len(),
        hs.to_set().finite(),
    decreases hs.len(),
{
    if hs.len() == 0 {
        assert(hs.to_set() =~= Set::<u64>::empty());
    } else {
        let init = hs.drop_last();
        lemma_distinct_count_set(init);
        assert(init.push(hs.last()) =~= hs);
        init.lemma_push_to_set_commute(hs.last());
        vstd::set::axiom_set_insert_finite(init.to_set(), hs.last());
        vstd::set::axiom_set_insert_len(init.to_set(), hs.last());
    }
}

/// Sequences holding the same values as often have as many distinct values.
proof fn lemma_distinct_count_multiset(a: Seq<u64>, b: Seq<u64>)
    requires
        a.to_multiset() == b.to_multiset(),
    ensures
        distinct_count(a) == distinct_count(b),
{
    lemma_distinct_count_set(a);
    lemma_distinct_count_set(b);
    assert forall|x: u64| a.to_set().contains(x) <==> b.to_set().contains(x) by {
        vstd::seq_lib::to_multiset_contains(a, x);
        vstd::seq_lib::to_multiset_contains(b, x);
    }
    assert(a.to_set() =~= b.to_set());
}

proof fn lemma_lines_lt_irreflexive(a: Seq<Seq<u8>>)
    ensures
        !lines_lt(a, a),
    decreases a.len(),
{
    if a.len() > 0 {
        lemma_lines_lt_irreflexive(a.drop_first());
    }
}

proof fn lemma_lines_lt_transitive(a: Seq<Seq<u8>>, b: Seq<Seq<u8>>, c: Seq<Seq<u8>>)
    requires
        lines_lt(a, b),
        lines_lt(b, c),
    ensures
        lines_lt(a, c),
    decreases a.len(),
{
    if a.len() > 0 && b.len() > 0 && c.len() > 0 {
        if a[0] == b[0] && b[0] == c[0] {
            lemma_lines_lt_transitive(a.drop_first(), b.drop_first(), c.drop_first());
        } else if a[0] == b[0] {
        } else if b[0] == c[0] {
        } else {
            lemma_lex_transitive(a[0], b[0], c[0]);
            if a[0] == c[0] {
                lemma_lex_asymmetric(a[0], b[0]);
            }
        }
    }
}

proof fn lemma_lines_lt_total(a: Seq<Seq<u8>>, b: Seq<Seq<u8>>)
    ensures
        a == b || lines_lt(a, b) || lines_lt(b, a),
    decreases a.len(),
{
    if a.len() > 0 && b.len() > 0 {
        if a[0] == b[0] {
            lemma_lines_lt_total(a.drop_first(), b.drop_first());
            if a.drop_first() == b.drop_first() {
                assert(a =~= seq![a[0]] + a.drop_first());
                assert(b =~= seq![b[0]] + b.drop_first());
            }
        } else {
            lemma_lex_total(a[0], b[0]);
        }
    } else if a.len() == 0 && b.len() == 0 {
        assert(a =~= b);
    }
}

/// Whether a cell size and hash come no later than another, by size then hash.
pub open spec fn cell_le(a: (nat, u64), b: (nat, u64)) -> bool {
    a.0 < b.0 || (a.0 == b.0 && a.1 <= b.1)
}

proof fn lemma_best_cell(hs: Seq<u64>, k: int)
    requires
        0 <= k <= hs.len(),
    ensures
        best_cell(hs, k) is None <==> forall|j: int| 0 <= j < k ==> count_of(hs, #[trigger] hs[j]) <= 1,
        best_cell(hs, k) matches Some((c, h)) ==> c == count_of(hs, h) && c > 1 && (exists|j: int|
            0 <= j < k && hs[j] == h) && forall|j: int|
            0 <= j < k && count_of(hs, #[trigger] hs[j]) > 1 ==> cell_le((c, h), (count_of(hs, hs[j]), hs[j])),
    decreases k,
{
    if k > 0 {
        lemma_best_cell(hs, k - 1);
    }
}

/// The cell to split depends only on how often each value comes.
proof fn lemma_best_cell_multiset(a: Seq<u64>, b: Seq<u64>)
    requires
        a.to_multiset() == b.to_multiset(),
    ensures
        best_cell(a, a.len() as int) == best_cell(b, b.len() as int),
{
    lemma_best_cell(a, a.len() as int);
    lemma_best_cell(b, b.len() as int);
    assert forall|x: u64| #[trigger] count_of(a, x) == count_of(b, x) by {
        lemma_count_of_multiset(a, x);
        lemma_count_of_multiset(b, x);
    }
    assert forall|x: u64| a.contains(x) <==> b.contains(x) by {
        vstd::seq_lib::to_multiset_contains(a, x);
        vstd::seq_lib::to_multiset_contains(b, x);
    }
    match best_cell(a, a.len() as int) {
        Some((c, h)) => {
            let ja = choose|j: int| 0 <= j < a.len() && a[j] == h;
            assert(a.contains(a[ja]));
            assert(b.contains(h));
            let jb = choose|j: int| 0 <= j < b.len() && b[j] == h;
            assert(count_of(b, b[jb]) > 1);
            match best_cell(b, b.len() as int) {
                Some((c2, h2)) => {
                    let ka = choose|j: int| 0 <= j < b.len() && b[j] == h2;
                    assert(b.contains(b[ka]));
                    assert(a.contains(h2));
                    let kb = choose|j: int| 0 <= j < a.len() && a[j] == h2;
                    assert(count_of(a, a[kb]) > 1);
                    assert(cell_le((c, h), (c2, h2)));
                    assert(cell_le((c2, h2), (c, h)));
                },
                None => {},
            }
        },
        None => {
            if best_cell(b, b.len() as int) is Some {
                let (c2, h2) = best_cell(b, b.len() as int)->0;
                let ka = choose|j: int| 0 <= j < b.len() && b[j] == h2;
                assert(b.contains(b[ka]));
                assert(a.contains(h2));
                let kb = choose|j: int| 0 <= j < a.len() && a[j] == h2;
                assert(count_of(a, a[kb]) > 1);
            }
        },
    }
}

proof fn lemma_members(hs: Seq<u64>, h: u64, k: int)
    requires
        0 <= k <= hs.len(),
    ensures
        forall|j: int| #[trigger] members(hs, h, k).contains(j) <==> 0 <= j < k && hs[j] == h,
        forall|i: int| 0 <= i < members(hs, h, k).len() ==> 0 <= #[trigger] members(hs, h, k)[i] < k,
    decreases k,
{
    if k > 0 {
        lemma_members(hs, h, k - 1);
        let m = members(hs, h, k - 1);
        if hs[k - 1] == h {
            let mp = m.push(k - 1);
            assert forall|j: int| #[trigger] mp.contains(j) <==> m.contains(j) || j == k - 1 by {
                if mp.contains(j) {
                    let i = choose|i: int| 0 <= i < mp.len() && #[trigger] mp[i] == j;
                    if i < m.len() {
                        assert(m[i] == j);
                    }
                }
                if m.contains(j) {
                    let i = choose|i: int| 0 <= i < m.len() && #[trigger] m[i] == j;
                    assert(mp[i] == j);
                }
                if j == k - 1 {
                    assert(mp[m.len() as int] == j);
                }
            }
        }
    }
}

/// The least outcome is one of the outcomes, and none is less.
proof fn lemma_least_outcome_min(qs: Seq<Quad>, bs: Seq<Seq<char>>, hs: Seq<u64>, ms: Seq<int>, fuel: nat, k: nat)
    requires
        1 <= k <= ms.len(),
    ensures
        exists|i: int| 0 <= i < k && least_outcome(qs, bs, hs, ms, fuel, k) == #[trigger] outcome(qs, bs, hs, ms[i], fuel),
        forall|i: int| 0 <= i < k ==> !lines_lt(#[trigger] outcome(qs, bs, hs, ms[i], fuel), least_outcome(qs, bs, hs, ms, fuel, k)),
    decreases k,
{
    let c = outcome(qs, bs, hs, ms[k - 1], fuel);
    lemma_lines_lt_irreflexive(c);
    if k > 1 {
        lemma_least_outcome_min(qs, bs, hs, ms, fuel, (k - 1) as nat);
        let prev = least_outcome(qs, bs, hs, ms, fuel, (k - 1) as nat);
        if lines_lt(c, prev) {
            assert forall|i: int| 0 <= i < k implies !lines_lt(#[trigger] outcome(qs, bs, hs, ms[i], fuel), c) by {
                if i < k - 1 && lines_lt(outcome(qs, bs, hs, ms[i], fuel), c) {
                    lemma_lines_lt_transitive(outcome(qs, bs, hs, ms[i], fuel), c, prev);
                }
            }
        }
    }
}


// ---------------------------------------------------------------------------
// The order of the quads

/// Whether `x` is the label of a blank node at the subject, object or graph
/// name of `q`.
pub open spec fn blank_label_of(q: Quad, x: Seq<char>) -> bool {
    blank_of(q.subject) == Some(x) || blank_of(q.object) == Some(x) || graph_blank_of(q.graph_name) == Some(x)
}

proof fn lemma_add_label_no_dup(bs: Seq<Seq<char>>, x: Option<Seq<char>>)
    requires
        bs.no_duplicates(),
    ensures
        add_label(bs, x).no_duplicates(),
        forall|y: Seq<char>| #[trigger] add_label(bs, x).contains(y) ==> bs.contains(y) || x == Some(y),
{
    if let Some(a) = x {
        if !bs.contains(a) {
            let p = bs.push(a);
            assert forall|i: int, j: int| 0 <= i < p.len() && 0 <= j < p.len() && i != j implies p[i] != p[j] by {
                if i < bs.len() && j < bs.len() {
                } else if i < bs.len() {
                    assert(bs.contains(p[i]));
                } else {
                    assert(bs.contains(p[j]));
                }
            }
            assert forall|y: Seq<char>| #[trigger] p.contains(y) implies bs.contains(y) || x == Some(y) by {
                let i = choose|i: int| 0 <= i < p.len() && p[i] == y;
                if i < bs.len() {
                    assert(bs[i] == y);
                }
            }
        }
    }
}

/// The labels listed are those of the quads' blank nodes, each once.
proof fn lemma_blank_nodes_labels(qs: Seq<Quad>)
    ensures
        blank_nodes(qs).no_duplicates(),
        forall|x: Seq<char>| #[trigger] blank_nodes(qs).contains(x) <==> exists|i: int| 0 <= i < qs.len() && blank_label_of(#[trigger] qs[i], x),
    decreases qs.len(),
{
    let id = |x: Seq<char>| x;
    assert forall|i: int| 0 <= i < qs.len() implies renamed_quad(#[trigger] qs[i], qs[i], id) by {}
    lemma_blank_nodes_renamed(qs, qs, id);
    if qs.len() > 0 {
        let init = qs.drop_last();
        lemma_blank_nodes_labels(init);
        let q = qs.last();
        let b0 = blank_nodes(init);
        let b1 = add_label(b0, blank_of(q.subject));
        let b2 = add_label(b1, blank_of(q.object));
        lemma_add_label_no_dup(b0, blank_of(q.subject));
        lemma_add_label_no_dup(b1, blank_of(q.object));
        lemma_add_label_no_dup(b2, graph_blank_of(q.graph_name));
        assert forall|x: Seq<char>| #[trigger] blank_nodes(qs).contains(x) implies exists|i: int| 0 <= i < qs.len() && blank_label_of(#[trigger] qs[i], x) by {
            if b0.contains(x) {
                let i = choose|i: int| 0 <= i < init.len() && blank_label_of(#[trigger] init[i], x);
                assert(qs[i] == init[i]);
            } else {
                assert(blank_label_of(qs[qs.len() - 1], x));
            }
        }
        assert forall|x: Seq<char>| (exists|i: int| 0 <= i < qs.len() && blank_label_of(#[trigger] qs[i], x)) implies #[trigger] blank_nodes(qs).contains(x) by {
            let i = choose|i: int| 0 <= i < qs.len() && blank_label_of(#[trigger] qs[i], x);
            assert(blanks_among(qs[i], blank_nodes(qs)));
        }
    }
}

/// A sequence without repeats holds each of its values once.
proof fn lemma_no_dup_count(s: Seq<Seq<char>>, x: Seq<char>)
    requires
        s.no_duplicates(),
    ensures
        s.to_multiset().count(x) == if s.contains(x) { 1nat } else { 0nat },
    decreases s.len(),
{
    if s.len() > 0 {
        let init = s.drop_last();
        assert(init.no_duplicates());
        lemma_no_dup_count(init, x);
        assert(init.push(s.last()) =~= s);
        if init.contains(s.last()) {
            let i = choose|i: int| 0 <= i < init.len() && init[i] == s.last();
            assert(s[i] == s[s.len() - 1]);
        }
        if s.contains(x) && !init.contains(x) {
            let i = choose|i: int| 0 <= i < s.len() && s[i] == x;
            if i < init.len() {
                assert(init[i] == x);
            }
        }
        if init.contains(x) {
            let i = choose|i: int| 0 <= i < init.len() && init[i] == x;
            assert(s[i] == x);
        }
    }
}

/// The blank nodes of two lists of the same quads are the same labels, in
/// some order.
proof fn lemma_blank_nodes_permuted(qs: Seq<Quad>, qs2: Seq<Quad>)
    requires
        qs.to_multiset() == qs2.to_multiset(),
    ensures
        blank_nodes(qs).no_duplicates(),
        blank_nodes(qs2).no_duplicates(),
        blank_nodes(qs).to_multiset() == blank_nodes(qs2).to_multiset(),
        blank_nodes(qs).len() == blank_nodes(qs2).len(),
        forall|x: Seq<char>| blank_nodes(qs).contains(x) <==> #[trigger] blank_nodes(qs2).contains(x),
{
    lemma_blank_nodes_labels(qs);
    lemma_blank_nodes_labels(qs2);
    let bs = blank_nodes(qs);
    let bs2 = blank_nodes(qs2);
    assert forall|q: Quad| qs.contains(q) <==> qs2.contains(q) by {
        vstd::seq_lib::to_multiset_contains(qs, q);
        vstd::seq_lib::to_multiset_contains(qs2, q);
    }
    assert forall|x: Seq<char>| bs.contains(x) implies #[trigger] bs2.contains(x) by {
        let i = choose|i: int| 0 <= i < qs.len() && blank_label_of(#[trigger] qs[i], x);
        assert(qs.contains(qs[i]));
        let j = choose|j: int| 0 <= j < qs2.len() && qs2[j] == qs[i];
        assert(blank_label_of(qs2[j], x));
    }
    assert forall|x: Seq<char>| bs2.contains(x) implies #[trigger] bs.contains(x) by {
        let i = choose|i: int| 0 <= i < qs2.len() && blank_label_of(#[trigger] qs2[i], x);
        assert(qs2.contains(qs2[i]));
        let j = choose|j: int| 0 <= j < qs.len() && qs[j] == qs2[i];
        assert(blank_label_of(qs[j], x));
    }
    assert forall|x: Seq<char>| bs.to_multiset().count(x) == bs2.to_multiset().count(x) by {
        lemma_no_dup_count(bs, x);
        lemma_no_dup_count(bs2, x);
    }
    assert(bs.to_multiset() =~= bs2.to_multiset());
    vstd::seq_lib::to_multiset_len(bs);
    vstd::seq_lib::to_multiset_len(bs2);
}


/// The hash of a term, its blank node's by the function `h`.
spec fn term_hash_by(t: Term, h: spec_fn(Seq<char>) -> u64) -> u64 {
    match blank_of(t) {
        Some(id) => h(id),
        None => default_hash_of(term_text(t)),
    }
}

spec fn graph_hash_by(g: GraphName, h: spec_fn(Seq<char>) -> u64) -> u64 {
    match g {
        GraphName::NamedNode(n) => default_hash_of(iri_text(n.iri@)),
        GraphName::BlankNode(b) => h(b.id@),
        GraphName::DefaultGraph => 0,
    }
}

spec fn quad_keys_by(q: Quad, h: spec_fn(Seq<char>) -> u64, x: Seq<char>) -> Seq<Seq<u8>> {
    let s = term_hash_by(q.subject, h);
    let p = default_hash_of(iri_text(q.predicate.iri@));
    let o = term_hash_by(q.object, h);
    let g = graph_hash_by(q.graph_name, h);
    (if blank_of(q.subject) == Some(x) { seq![key4(p, o, g, 0)] } else { Seq::empty() })
        + (if blank_of(q.object) == Some(x) { seq![key4(s, p, g, 1)] } else { Seq::empty() })
        + (if graph_blank_of(q.graph_name) == Some(x) { seq![key4(s, p, o, 2)] } else { Seq::empty() })
}

spec fn neighbour_keys_by(qs: Seq<Quad>, h: spec_fn(Seq<char>) -> u64, x: Seq<char>) -> Seq<Seq<u8>>
    decreases qs.len(),
{
    if qs.len() == 0 {
        Seq::empty()
    } else {
        neighbour_keys_by(qs.drop_last(), h, x) + quad_keys_by(qs.last(), h, x)
    }
}

/// The next hash of each label.
spec fn next_hash(qs: Seq<Quad>, h: spec_fn(Seq<char>) -> u64) -> spec_fn(Seq<char>) -> u64 {
    |x: Seq<char>| default_hash_of(u64_to_be(h(x)) + concat_all(neighbour_keys_by(qs, h, x).sort_by(bytes_order())))
}

spec fn labelled_by(t: Term, h: spec_fn(Seq<char>) -> u64) -> Seq<u8> {
    match blank_of(t) {
        Some(id) => hashed_label_text(h(id)),
        None => term_text(t),
    }
}

spec fn quad_line_by(q: Quad, h: spec_fn(Seq<char>) -> u64) -> Seq<u8> {
    labelled_by(q.subject, h) + seq![32u8] + iri_text(q.predicate.iri@) + seq![32u8] + labelled_by(q.object, h)
        + match q.graph_name {
        GraphName::DefaultGraph => Seq::empty(),
        GraphName::NamedNode(n) => seq![32u8] + iri_text(n.iri@),
        GraphName::BlankNode(b) => seq![32u8] + hashed_label_text(h(b.id@)),
    }
}

/// Whether every quad has its blank nodes among the labels.
spec fn all_blanks_among(qs: Seq<Quad>, bs: Seq<Seq<char>>) -> bool {
    forall|i: int| 0 <= i < qs.len() ==> blanks_among(#[trigger] qs[i], bs)
}

proof fn lemma_lookup_by(bs: Seq<Seq<char>>, h: spec_fn(Seq<char>) -> u64, x: Seq<char>)
    requires
        bs.contains(x),
    ensures
        index_in(bs, x) >= 0,
        index_in(bs, x) < bs.len(),
        bs.map_values(h)[index_in(bs, x)] == h(x),
{
    lemma_index_in(bs, x);
}

proof fn lemma_quad_by(q: Quad, bs: Seq<Seq<char>>, h: spec_fn(Seq<char>) -> u64, x: Seq<char>)
    requires
        blanks_among(q, bs),
    ensures
        quad_keys(q, bs, bs.map_values(h), x) == quad_keys_by(q, h, x),
        quad_line(q, bs, bs.map_values(h)) == quad_line_by(q, h),
{
    let hs = bs.map_values(h);
    if let Some(a) = blank_of(q.subject) {
        lemma_lookup_by(bs, h, a);
    }
    if let Some(a) = blank_of(q.object) {
        lemma_lookup_by(bs, h, a);
    }
    if let Some(a) = graph_blank_of(q.graph_name) {
        lemma_lookup_by(bs, h, a);
    }
    assert(term_hash(q.subject, bs, hs) == term_hash_by(q.subject, h));
    assert(term_hash(q.object, bs, hs) == term_hash_by(q.object, h));
    assert(graph_hash(q.graph_name, bs, hs) == graph_hash_by(q.graph_name, h));
    assert(labelled_term_text(q.subject, bs, hs) == labelled_by(q.subject, h));
    assert(labelled_term_text(q.object, bs, hs) == labelled_by(q.object, h));
}

proof fn lemma_neighbour_keys_by(qs: Seq<Quad>, bs: Seq<Seq<char>>, h: spec_fn(Seq<char>) -> u64, x: Seq<char>)
    requires
        all_blanks_among(qs, bs),
    ensures
        neighbour_keys(qs, bs, bs.map_values(h), x) == neighbour_keys_by(qs, h, x),
    decreases qs.len(),
{
    if qs.len() > 0 {
        let init = qs.drop_last();
        assert forall|i: int| 0 <= i < init.len() implies blanks_among(#[trigger] init[i], bs) by {
            assert(blanks_among(qs[i], bs));
        }
        lemma_neighbour_keys_by(init, bs, h, x);
        assert(blanks_among(qs[qs.len() - 1], bs));
        lemma_quad_by(qs.last(), bs, h, x);
    }
}

proof fn lemma_neighbour_keys_by_concat(a: Seq<Quad>, b: Seq<Quad>, h: spec_fn(Seq<char>) -> u64, x: Seq<char>)
    ensures
        neighbour_keys_by(a + b, h, x) == neighbour_keys_by(a, h, x) + neighbour_keys_by(b, h, x),
    decreases b.len(),
{
    if b.len() == 0 {
        assert(a + b =~= a);
        assert(neighbour_keys_by(a, h, x) + neighbour_keys_by(b, h, x) =~= neighbour_keys_by(a, h, x));
    } else {
        lemma_neighbour_keys_by_concat(a, b.drop_last(), h, x);
        assert((a + b).drop_last() =~= a + b.drop_last());
        assert((a + b).last() == b.last());
        assert(neighbour_keys_by(a + b, h, x) =~= neighbour_keys_by(a, h, x) + neighbour_keys_by(b, h, x));
    }
}

proof fn lemma_neighbour_keys_by_split(t: Seq<Quad>, j: int, h: spec_fn(Seq<char>) -> u64, x: Seq<char>)
    requires
        0 <= j < t.len(),
    ensures
        neighbour_keys_by(t, h, x).to_multiset() == neighbour_keys_by(t.remove(j), h, x).to_multiset().add(
            quad_keys_by(t[j], h, x).to_multiset(),
        ),
{
    let q = t[j];
    let a = t.take(j);
    let b = t.skip(j + 1);
    assert(t =~= a + seq![q] + b);
    assert(t.remove(j) =~= a + b);
    lemma_neighbour_keys_by_concat(a + seq![q], b, h, x);
    lemma_neighbour_keys_by_concat(a, seq![q], h, x);
    lemma_neighbour_keys_by_concat(a, b, h, x);
    assert(seq![q].drop_last() =~= Seq::<Quad>::empty());
    assert(seq![q].last() == q);
    assert(neighbour_keys_by(Seq::<Quad>::empty(), h, x) =~= Seq::<Seq<u8>>::empty());
    assert(neighbour_keys_by(seq![q], h, x) == neighbour_keys_by(Seq::<Quad>::empty(), h, x) + quad_keys_by(q, h, x));
    assert(neighbour_keys_by(seq![q], h, x) =~= quad_keys_by(q, h, x));
    let na = neighbour_keys_by(a, h, x);
    let nb = neighbour_keys_by(b, h, x);
    let k = quad_keys_by(q, h, x);
    assert(neighbour_keys_by(t, h, x) == na + k + nb);
    assert(neighbour_keys_by(t.remove(j), h, x) == na + nb);
    vstd::seq_lib::lemma_multiset_commutative(na + k, nb);
    vstd::seq_lib::lemma_multiset_commutative(na, k);
    vstd::seq_lib::lemma_multiset_commutative(na, nb);
    assert(neighbour_keys_by(t, h, x).to_multiset() =~= neighbour_keys_by(t.remove(j), h, x).to_multiset().add(
        k.to_multiset(),
    ));
}

/// What the quads tell of a label does not depend on their order, up to
/// the order of the keys.
proof fn lemma_neighbour_keys_by_multiset(s: Seq<Quad>, t: Seq<Quad>, h: spec_fn(Seq<char>) -> u64, x: Seq<char>)
    requires
        s.to_multiset() == t.to_multiset(),
    ensures
        neighbour_keys_by(s, h, x).to_multiset() == neighbour_keys_by(t, h, x).to_multiset(),
    decreases s.len(),
{
    vstd::seq_lib::to_multiset_len(s);
    vstd::seq_lib::to_multiset_len(t);
    if s.len() == 0 {
        assert(t =~= Seq::<Quad>::empty());
    } else {
        let q = s.last();
        let init = s.drop_last();
        assert(init.push(q) =~= s);
        vstd::seq_lib::to_multiset_build(init, q);
        assert(t.to_multiset().count(q) > 0);
        vstd::seq_lib::to_multiset_contains(t, q);
        let j = choose|j: int| 0 <= j < t.len() && t[j] == q;
        vstd::seq_lib::to_multiset_remove(t, j);
        assert(t.remove(j).to_multiset() =~= init.to_multiset());
        lemma_neighbour_keys_by_multiset(init, t.remove(j), h, x);
        lemma_neighbour_keys_by_split(t, j, h, x);
        let k = quad_keys_by(q, h, x);
        assert(neighbour_keys_by(s, h, x) == neighbour_keys_by(init, h, x) + k);
        vstd::seq_lib::lemma_multiset_commutative(neighbour_keys_by(init, h, x), k);
    }
}

proof fn lemma_sort_multiset(a: Seq<Seq<u8>>, b: Seq<Seq<u8>>)
    requires
        a.to_multiset() == b.to_multiset(),
    ensures
        a.sort_by(bytes_order()) == b.sort_by(bytes_order()),
{
    lemma_bytes_order_total();
    a.lemma_sort_by_ensures(bytes_order());
    b.lemma_sort_by_ensures(bytes_order());
    vstd::seq_lib::lemma_sorted_unique(a.sort_by(bytes_order()), b.sort_by(bytes_order()), bytes_order());
}

proof fn lemma_refine_by(qs: Seq<Quad>, bs: Seq<Seq<char>>, h: spec_fn(Seq<char>) -> u64)
    requires
        all_blanks_among(qs, bs),
    ensures
        refine(qs, bs, bs.map_values(h)) == bs.map_values(next_hash(qs, h)),
{
    assert forall|i: int| 0 <= i < bs.len() implies #[trigger] round_hash(qs, bs, bs.map_values(h), i)
        == next_hash(qs, h)(bs[i]) by {
        lemma_neighbour_keys_by(qs, bs, h, bs[i]);
    }
    assert(refine(qs, bs, bs.map_values(h)) =~= bs.map_values(next_hash(qs, h)));
}

proof fn lemma_next_hash_order(qs: Seq<Quad>, qs2: Seq<Quad>, h: spec_fn(Seq<char>) -> u64)
    requires
        qs.to_multiset() == qs2.to_multiset(),
    ensures
        next_hash(qs, h) == next_hash(qs2, h),
{
    assert forall|x: Seq<char>| #[trigger] next_hash(qs, h)(x) == next_hash(qs2, h)(x) by {
        lemma_neighbour_keys_by_multiset(qs, qs2, h, x);
        lemma_sort_multiset(neighbour_keys_by(qs, h, x), neighbour_keys_by(qs2, h, x));
    }
    assert(next_hash(qs, h) =~= next_hash(qs2, h));
}


/// Whether `qs2` holds the quads of `qs`, as often, and `bs2` their blank
/// nodes in some order, as `bs` does.
spec fn permuted(qs: Seq<Quad>, qs2: Seq<Quad>, bs: Seq<Seq<char>>, bs2: Seq<Seq<char>>) -> bool {
    &&& qs.to_multiset() == qs2.to_multiset()
    &&& bs.no_duplicates()
    &&& bs2.no_duplicates()
    &&& bs.to_multiset() == bs2.to_multiset()
    &&& bs.len() == bs2.len()
    &&& forall|x: Seq<char>| bs.contains(x) <==> #[trigger] bs2.contains(x)
    &&& all_blanks_among(qs, bs)
    &&& all_blanks_among(qs2, bs2)
}

proof fn lemma_rounds_by(
    qs: Seq<Quad>,
    qs2: Seq<Quad>,
    bs: Seq<Seq<char>>,
    bs2: Seq<Seq<char>>,
    h: spec_fn(Seq<char>) -> u64,
    cells: nat,
    fuel: nat,
) -> (r: (spec_fn(Seq<char>) -> u64, spec_fn(Seq<char>) -> u64))
    requires
        permuted(qs, qs2, bs, bs2),
    ensures
        hash_rounds(qs, bs, bs.map_values(h), cells, fuel) == (bs.map_values(r.0), bs.map_values(r.1)),
        hash_rounds(qs2, bs2, bs2.map_values(h), cells, fuel) == (bs2.map_values(r.0), bs2.map_values(r.1)),
    decreases fuel,
{
    lemma_refine_by(qs, bs, h);
    lemma_refine_by(qs2, bs2, h);
    lemma_next_hash_order(qs, qs2, h);
    let n = next_hash(qs, h);
    lemma_map_to_multiset(bs, bs2, n);
    lemma_distinct_count_multiset(bs.map_values(n), bs2.map_values(n));
    if distinct_count(bs.map_values(n)) == cells || fuel == 0 {
        (h, n)
    } else {
        lemma_rounds_by(qs, qs2, bs, bs2, n, distinct_count(bs.map_values(n)), (fuel - 1) as nat)
    }
}

proof fn lemma_label_by(qs: Seq<Quad>, qs2: Seq<Quad>, bs: Seq<Seq<char>>, bs2: Seq<Seq<char>>, h: spec_fn(Seq<char>) -> u64)
    requires
        permuted(qs, qs2, bs, bs2),
    ensures
        label(qs, bs, bs.map_values(h)) == label(qs2, bs2, bs2.map_values(h)),
{
    let f = |q: Quad| quad_line_by(q, h);
    assert forall|i: int| 0 <= i < qs.len() implies #[trigger] quad_line(qs[i], bs, bs.map_values(h)) == f(qs[i]) by {
        assert(blanks_among(qs[i], bs));
        lemma_quad_by(qs[i], bs, h, Seq::empty());
    }
    assert forall|i: int| 0 <= i < qs2.len() implies #[trigger] quad_line(qs2[i], bs2, bs2.map_values(h)) == f(qs2[i]) by {
        assert(blanks_among(qs2[i], bs2));
        lemma_quad_by(qs2[i], bs2, h, Seq::empty());
    }
    assert(Seq::new(qs.len(), |i: int| quad_line(qs[i], bs, bs.map_values(h))) =~= qs.map_values(f));
    assert(Seq::new(qs2.len(), |i: int| quad_line(qs2[i], bs2, bs2.map_values(h))) =~= qs2.map_values(f));
    lemma_map_to_multiset(qs, qs2, f);
    lemma_sort_multiset(qs.map_values(f), qs2.map_values(f));
}

proof fn lemma_distinguish_by(
    qs: Seq<Quad>,
    qs2: Seq<Quad>,
    bs: Seq<Seq<char>>,
    bs2: Seq<Seq<char>>,
    h: spec_fn(Seq<char>) -> u64,
    c: spec_fn(Seq<char>) -> u64,
    fuel: nat,
)
    requires
        permuted(qs, qs2, bs, bs2),
    ensures
        distinguish(qs, bs, bs.map_values(h), bs.map_values(c), fuel) == distinguish(
            qs2,
            bs2,
            bs2.map_values(h),
            bs2.map_values(c),
            fuel,
        ),
    decreases fuel, 0nat,
{
    lemma_label_by(qs, qs2, bs, bs2, h);
    lemma_map_to_multiset(bs, bs2, c);
    lemma_best_cell_multiset(bs.map_values(c), bs2.map_values(c));
    match best_cell(bs.map_values(c), bs.len() as int) {
        Some((_, hh)) => {
            if fuel > 0 {
                lemma_least_by(qs, qs2, bs, bs2, h, c, hh, (fuel - 1) as nat);
            }
        },
        None => {},
    }
}

proof fn lemma_least_by(
    qs: Seq<Quad>,
    qs2: Seq<Quad>,
    bs: Seq<Seq<char>>,
    bs2: Seq<Seq<char>>,
    h: spec_fn(Seq<char>) -> u64,
    c: spec_fn(Seq<char>) -> u64,
    hh: u64,
    fuel: nat,
)
    requires
        permuted(qs, qs2, bs, bs2),
        best_cell(bs.map_values(c), bs.len() as int) matches Some((_, x)) && x == hh,
    ensures
        ({
            let ms = members(bs.map_values(c), hh, bs.len() as int);
            let ms2 = members(bs2.map_values(c), hh, bs2.len() as int);
            least_outcome(qs, bs, bs.map_values(h), ms, fuel, ms.len()) == least_outcome(
                qs2,
                bs2,
                bs2.map_values(h),
                ms2,
                fuel,
                ms2.len(),
            )
        }),
    decreases fuel, 2nat,
{
    let cs = bs.map_values(c);
    let cs2 = bs2.map_values(c);
    let n = bs.len() as int;
    let ms = members(cs, hh, n);
    let ms2 = members(cs2, hh, n);
    let hs = bs.map_values(h);
    let hs2 = bs2.map_values(h);
    lemma_best_cell(cs, n);
    lemma_members(cs, hh, n);
    lemma_members(cs2, hh, n);
    let j = choose|j: int| 0 <= j < n && cs[j] == hh;
    assert(ms.contains(j));
    assert(bs.contains(bs[j]));
    assert(bs2.contains(bs[j]));
    let j2 = choose|j2: int| 0 <= j2 < n && bs2[j2] == bs[j];
    assert(cs2[j2] == hh);
    assert(ms2.contains(j2));
    lemma_least_outcome_min(qs, bs, hs, ms, fuel, ms.len());
    lemma_least_outcome_min(qs2, bs2, hs2, ms2, fuel, ms2.len());
    let l1 = least_outcome(qs, bs, hs, ms, fuel, ms.len());
    let l2 = least_outcome(qs2, bs2, hs2, ms2, fuel, ms2.len());
    let i1 = choose|i: int| 0 <= i < ms.len() && l1 == #[trigger] outcome(qs, bs, hs, ms[i], fuel);
    let k1 = ms[i1];
    assert(0 <= k1 < n);
    assert(ms.contains(k1));
    assert(cs[k1] == hh);
    assert(cs[k1] == c(bs[k1]));
    assert(bs.contains(bs[k1]));
    assert(bs2.contains(bs[k1]));
    let k2 = choose|k2: int| 0 <= k2 < n && bs2[k2] == bs[k1];
    assert(cs2[k2] == c(bs2[k2]));
    assert(cs2[k2] == hh);
    assert(ms2.contains(k2));
    let i2 = choose|i: int| 0 <= i < ms2.len() && ms2[i] == k2;
    lemma_outcome_by(qs, qs2, bs, bs2, h, k1, k2, fuel);
    assert(!lines_lt(outcome(qs2, bs2, hs2, ms2[i2], fuel), l2));
    let i3 = choose|i: int| 0 <= i < ms2.len() && l2 == #[trigger] outcome(qs2, bs2, hs2, ms2[i], fuel);
    let k3 = ms2[i3];
    assert(0 <= k3 < n);
    assert(ms2.contains(k3));
    assert(cs2[k3] == hh);
    assert(cs2[k3] == c(bs2[k3]));
    assert(bs2.contains(bs2[k3]));
    assert(bs.contains(bs2[k3]));
    let k4 = choose|k4: int| 0 <= k4 < n && bs[k4] == bs2[k3];
    assert(cs[k4] == c(bs[k4]));
    assert(cs[k4] == hh);
    assert(ms.contains(k4));
    let i4 = choose|i: int| 0 <= i < ms.len() && ms[i] == k4;
    lemma_outcome_by(qs, qs2, bs, bs2, h, k4, k3, fuel);
    assert(!lines_lt(outcome(qs, bs, hs, ms[i4], fuel), l1));
    lemma_lines_lt_total(l1, l2);
}

proof fn lemma_outcome_by(
    qs: Seq<Quad>,
    qs2: Seq<Quad>,
    bs: Seq<Seq<char>>,
    bs2: Seq<Seq<char>>,
    h: spec_fn(Seq<char>) -> u64,
    k: int,
    k2: int,
    fuel: nat,
)
    requires
        permuted(qs, qs2, bs, bs2),
        0 <= k < bs.len(),
        0 <= k2 < bs2.len(),
        bs[k] == bs2[k2],
    ensures
        outcome(qs, bs, bs.map_values(h), k, fuel) == outcome(qs2, bs2, bs2.map_values(h), k2, fuel),
    decreases fuel, 1nat,
{
    let x = bs[k];
    let hk = |y: Seq<char>| if y == x { marked(h(y)) } else { h(y) };
    let hs = bs.map_values(h);
    let hs2 = bs2.map_values(h);
    assert(hs.update(k, marked(hs[k])) =~= bs.map_values(hk));
    assert(hs2.update(k2, marked(hs2[k2])) =~= bs2.map_values(hk));
    let r = lemma_rounds_by(qs, qs2, bs, bs2, hk, 0, bs.len());
    lemma_distinguish_by(qs, qs2, bs, bs2, r.0, r.1, fuel);
}

/// The canonical form does not depend on the order of the quads: lists
/// holding the same quads, as often, have the same.
pub proof fn lemma_canonical_form_order(qs: Seq<Quad>, qs2: Seq<Quad>)
    requires
        qs.to_multiset() == qs2.to_multiset(),
    ensures
        iso_canonical_form(qs) == iso_canonical_form(qs2),
{
    lemma_blank_nodes_permuted(qs, qs2);
    let id = |x: Seq<char>| x;
    assert forall|i: int| 0 <= i < qs.len() implies renamed_quad(#[trigger] qs[i], qs[i], id) by {}
    assert forall|i: int| 0 <= i < qs2.len() implies renamed_quad(#[trigger] qs2[i], qs2[i], id) by {}
    lemma_blank_nodes_renamed(qs, qs, id);
    lemma_blank_nodes_renamed(qs2, qs2, id);
    let bs = blank_nodes(qs);
    let bs2 = blank_nodes(qs2);
    assert(permuted(qs, qs2, bs, bs2));
    let z = |x: Seq<char>| 0u64;
    assert(Seq::new(bs.len(), |i: int| 0u64) =~= bs.map_values(z));
    assert(Seq::new(bs2.len(), |i: int| 0u64) =~= bs2.map_values(z));
    let r = lemma_rounds_by(qs, qs2, bs, bs2, z, 0, bs.len());
    lemma_distinguish_by(qs, qs2, bs, bs2, r.0, r.1, bs.len());
}


/// Isomorphic datasets have the same canonical form: a dataset whose blank
/// nodes at the subject, object and graph name of its quads are renamed one
/// for one, its quads then listed in any order, as often each.
pub proof fn lemma_canonical_form_isomorphic(
    qs: Seq<Quad>,
    renamed: Seq<Quad>,
    qs2: Seq<Quad>,
    f: spec_fn(Seq<char>) -> Seq<char>,
)
    requires
        injective_labels(f),
        renamed_quads(qs, renamed, f),
        renamed.to_multiset() == qs2.to_multiset(),
    ensures
        iso_canonical_form(qs) == iso_canonical_form(qs2),
{
    lemma_canonical_form_renaming(qs, renamed, f);
    lemma_canonical_form_order(renamed, qs2);
}


// ---------------------------------------------------------------------------
// Reading ground terms back from their text

/// The characters of a quoted lexical form.
spec fn quoted_chars(v: Seq<char>) -> Seq<char> {
    seq!['"'] + escaped(v) + seq!['"']
}

/// The characters of an IRI between angle brackets.
spec fn bracket_chars(iri: Seq<char>) -> Seq<char> {
    seq!['<'] + iri + seq!['>']
}

/// The characters of the text of a term.
spec fn term_chars(t: Term) -> Seq<char>
    decreases t,
{
    match t {
        Term::NamedNode(n) => bracket_chars(n.iri@),
        Term::BlankNode(b) => seq!['_'] + seq![':'] + b.id@,
        Term::Literal(Literal::Simple(v)) => quoted_chars(v@),
        Term::Literal(Literal::LanguageTagged { value, language }) => quoted_chars(value@) + seq!['@'] + language@,
        Term::Literal(Literal::Typed { value, datatype }) => quoted_chars(value@) + seq!['^'] + seq!['^'] + bracket_chars(
            datatype.iri@,
        ),
        Term::Triple(tr) => seq!['<'] + seq!['<'] + seq![' '] + term_chars(tr.subject) + seq![' '] + bracket_chars(
            tr.predicate.iri@,
        ) + seq![' '] + term_chars(tr.object) + seq![' '] + seq!['>'] + seq!['>'],
    }
}

proof fn lemma_encode_concat(a: Seq<char>, b: Seq<char>)
    ensures
        encode_utf8(a + b) == encode_utf8(a) + encode_utf8(b),
    decreases a.len(),
{
    if a.len() == 0 {
        assert(a + b =~= b);
        assert(encode_utf8(a) =~= Seq::<u8>::empty());
        assert(encode_utf8(a) + encode_utf8(b) =~= encode_utf8(b));
    } else {
        lemma_encode_concat(a.drop_first(), b);
        assert((a + b).drop_first() =~= a.drop_first() + b);
        assert((a + b)[0] == a[0]);
        assert(encode_utf8(a + b) =~= encode_utf8(a) + encode_utf8(b));
    }
}

proof fn lemma_encode_ascii(c: char, b: u8)
    requires
        c as u32 == b as u32,
        b < 128,
    ensures
        encode_utf8(seq![c]) == seq![b],
{
    assert(vstd::utf8::is_ascii_chars(seq![c]));
    vstd::utf8::is_ascii_chars_encode_utf8(seq![c]);
    assert(encode_utf8(seq![c]) =~= seq![b]);
}

proof fn lemma_encode3(a: Seq<char>, b: Seq<char>, c: Seq<char>)
    ensures
        encode_utf8(a + b + c) == encode_utf8(a) + encode_utf8(b) + encode_utf8(c),
{
    lemma_encode_concat(a + b, c);
    lemma_encode_concat(a, b);
}

proof fn lemma_bracket_text(iri: Seq<char>)
    ensures
        iri_text(iri) == encode_utf8(bracket_chars(iri)),
{
    lemma_encode_ascii('<', 60u8);
    lemma_encode_ascii('>', 62u8);
    lemma_encode3(seq!['<'], iri, seq!['>']);
}

proof fn lemma_quoted_text(v: Seq<char>)
    ensures
        quoted_text(v) == encode_utf8(quoted_chars(v)),
{
    lemma_encode_ascii('"', 34u8);
    lemma_encode3(seq!['"'], escaped(v), seq!['"']);
}

/// The text of a term is the UTF-8 encoding of its characters.
proof fn lemma_term_text_chars(t: Term)
    ensures
        term_text(t) == encode_utf8(term_chars(t)),
    decreases t,
{
    lemma_encode_ascii('<', 60u8);
    lemma_encode_ascii('>', 62u8);
    lemma_encode_ascii(' ', 32u8);
    lemma_encode_ascii('_', 95u8);
    lemma_encode_ascii(':', 58u8);
    lemma_encode_ascii('@', 64u8);
    lemma_encode_ascii('^', 94u8);
    match t {
        Term::NamedNode(n) => {
            lemma_bracket_text(n.iri@);
        },
        Term::BlankNode(b) => {
            lemma_encode3(seq!['_'], seq![':'], b.id@);
            assert(seq![95u8, 58u8] =~= seq![95u8] + seq![58u8]);
        },
        Term::Literal(Literal::Simple(v)) => {
            lemma_quoted_text(v@);
        },
        Term::Literal(Literal::LanguageTagged { value, language }) => {
            lemma_quoted_text(value@);
            lemma_encode3(quoted_chars(value@), seq!['@'], language@);
        },
        Term::Literal(Literal::Typed { value, datatype }) => {
            lemma_quoted_text(value@);
            lemma_bracket_text(datatype.iri@);
            let q = quoted_chars(value@);
            let k = bracket_chars(datatype.iri@);
            lemma_encode3(q, seq!['^'], seq!['^']);
            lemma_encode_concat(q + seq!['^'] + seq!['^'], k);
            assert(seq![94u8, 94u8] =~= seq![94u8] + seq![94u8]);
            assert(term_text(t) =~= quoted_text(value@) + seq![94u8] + seq![94u8] + iri_text(datatype.iri@));
        },
        Term::Triple(tr) => {
            lemma_term_text_chars(tr.subject);
            lemma_term_text_chars(tr.object);
            lemma_bracket_text(tr.predicate.iri@);
            let a = seq!['<'] + seq!['<'] + seq![' '];
            let sc = term_chars(tr.subject);
            let pc = bracket_chars(tr.predicate.iri@);
            let oc = term_chars(tr.object);
            let z = seq![' '] + seq!['>'] + seq!['>'];
            lemma_encode3(seq!['<'], seq!['<'], seq![' ']);
            lemma_encode3(seq![' '], seq!['>'], seq!['>']);
            lemma_encode_concat(a, sc);
            lemma_encode_concat(a + sc, seq![' ']);
            lemma_encode_concat(a + sc + seq![' '], pc);
            lemma_encode_concat(a + sc + seq![' '] + pc, seq![' ']);
            lemma_encode_concat(a + sc + seq![' '] + pc + seq![' '], oc);
            lemma_encode_concat(a + sc + seq![' '] + pc + seq![' '] + oc, z);
            assert(a + sc + seq![' '] + pc + seq![' '] + oc + z =~= term_chars(t));
            assert(term_text(t) =~= seq![60u8] + seq![60u8] + seq![32u8] + term_text(tr.subject) + seq![32u8] + iri_text(
                tr.predicate.iri@,
            ) + seq![32u8] + term_text(tr.object) + (seq![32u8] + seq![62u8] + seq![62u8]));
        },
    }
}

/// The characters hold neither `<` nor `>`, as those of an IRI do not.
pub open spec fn iri_ok(s: Seq<char>) -> bool {
    forall|i: int| 0 <= i < s.len() ==> s[i] != '<' && s[i] != '>'
}

/// The characters hold no space, as those of a language tag do not.
pub open spec fn no_space(s: Seq<char>) -> bool {
    forall|i: int| 0 <= i < s.len() ==> s[i] != ' '
}

/// A term with no blank node in it, whose IRIs hold no angle bracket and
/// whose language tags no space.
pub open spec fn ground_term(t: Term) -> bool
    decreases t,
{
    match t {
        Term::NamedNode(n) => iri_ok(n.iri@),
        Term::BlankNode(_) => false,
        Term::Literal(Literal::Simple(_)) => true,
        Term::Literal(Literal::LanguageTagged { value, language }) => no_space(language@),
        Term::Literal(Literal::Typed { value, datatype }) => iri_ok(datatype.iri@),
        Term::Triple(tr) => ground_term(tr.subject) && iri_ok(tr.predicate.iri@) && ground_term(tr.object),
    }
}

/// A term whose IRIs hold no angle bracket and whose language tags and blank
/// node labels hold no space.
pub open spec fn plain_term(t: Term) -> bool
    decreases t,
{
    match t {
        Term::NamedNode(n) => iri_ok(n.iri@),
        Term::BlankNode(b) => no_space(b.id@),
        Term::Literal(Literal::Simple(_)) => true,
        Term::Literal(Literal::LanguageTagged { value, language }) => no_space(language@),
        Term::Literal(Literal::Typed { value, datatype }) => iri_ok(datatype.iri@),
        Term::Triple(tr) => plain_term(tr.subject) && iri_ok(tr.predicate.iri@) && plain_term(tr.object),
    }
}

proof fn lemma_ground_plain(t: Term)
    requires
        ground_term(t),
    ensures
        plain_term(t),
    decreases t,
{
    if let Term::Triple(tr) = t {
        lemma_ground_plain(tr.subject);
        lemma_ground_plain(tr.object);
    }
}

/// Two terms are the same: of one kind, with the same strings.
pub open spec fn same_term(a: Term, b: Term) -> bool
    decreases a,
{
    match a {
        Term::NamedNode(n) => match b {
            Term::NamedNode(m) => n.iri@ == m.iri@,
            _ => false,
        },
        Term::BlankNode(x) => match b {
            Term::BlankNode(y) => x.id@ == y.id@,
            _ => false,
        },
        Term::Literal(Literal::Simple(v)) => match b {
            Term::Literal(Literal::Simple(w)) => v@ == w@,
            _ => false,
        },
        Term::Literal(Literal::LanguageTagged { value, language }) => match b {
            Term::Literal(Literal::LanguageTagged { value: value2, language: language2 }) => value@ == value2@
                && language@ == language2@,
            _ => false,
        },
        Term::Literal(Literal::Typed { value, datatype }) => match b {
            Term::Literal(Literal::Typed { value: value2, datatype: datatype2 }) => value@ == value2@
                && datatype.iri@ == datatype2.iri@,
            _ => false,
        },
        Term::Triple(tr) => match b {
            Term::Triple(tr2) => same_term(tr.subject, tr2.subject) && tr.predicate.iri@ == tr2.predicate.iri@
                && same_term(tr.object, tr2.object),
            _ => false,
        },
    }
}

/// Empty, or starting with a space: what may follow a term in a line.
spec fn separated(x: Seq<char>) -> bool {
    x.len() == 0 || x[0] == ' '
}

proof fn lemma_split_eq(p1: Seq<char>, r1: Seq<char>, p2: Seq<char>, r2: Seq<char>)
    requires
        p1 + r1 == p2 + r2,
        p1.len() == p2.len(),
    ensures
        p1 == p2,
        r1 == r2,
{
    assert(p1 =~= (p1 + r1).subrange(0, p1.len() as int));
    assert(p2 =~= (p2 + r2).subrange(0, p1.len() as int));
    assert(r1 =~= (p1 + r1).subrange(p1.len() as int, (p1 + r1).len() as int));
    assert(r2 =~= (p2 + r2).subrange(p1.len() as int, (p2 + r2).len() as int));
}

proof fn lemma_escape_char_shape(c: char)
    ensures
        (escape_char(c) == seq![c] && c != '\\' && c != '"') || (escape_char(c).len() == 2 && escape_char(c)[0]
            == '\\'),
{
}

/// Escaped characters are told apart by their escapes.
proof fn lemma_escape_char_prefix(c1: char, c2: char, s1: Seq<char>, s2: Seq<char>)
    requires
        escape_char(c1) + s1 == escape_char(c2) + s2,
    ensures
        c1 == c2,
        s1 == s2,
{
    let e1 = escape_char(c1);
    let e2 = escape_char(c2);
    lemma_escape_char_shape(c1);
    lemma_escape_char_shape(c2);
    let s = e1 + s1;
    assert(s[0] == e1[0]);
    assert((e2 + s2)[0] == e2[0]);
    assert(e1.len() == e2.len());
    if e1.len() == 2 {
        assert(s[1] == e1[1]);
        assert((e2 + s2)[1] == e2[1]);
    }
    lemma_split_eq(e1, s1, e2, s2);
}

proof fn lemma_escaped_first(v: Seq<char>)
    requires
        v.len() > 0,
    ensures
        escaped(v) == escape_char(v[0]) + escaped(v.drop_first()),
{
    lemma_escaped_concat(seq![v[0]], v.drop_first());
    assert(seq![v[0]] + v.drop_first() =~= v);
    assert(seq![v[0]].drop_last() =~= Seq::<char>::empty());
    assert(escaped(Seq::<char>::empty()) =~= Seq::<char>::empty());
    assert(escaped(seq![v[0]]) =~= escape_char(v[0]));
}

/// An escaped lexical form ends at the first unescaped double quote.
#[verifier::spinoff_prover]
proof fn lemma_escaped_prefix(v1: Seq<char>, r1: Seq<char>, v2: Seq<char>, r2: Seq<char>)
    requires
        escaped(v1) + (seq!['"'] + r1) == escaped(v2) + (seq!['"'] + r2),
    ensures
        v1 == v2,
        r1 == r2,
    decreases v1.len(),
{
    assert(escaped(Seq::<char>::empty()) =~= Seq::<char>::empty());
    if v1.len() == 0 {
        assert(escaped(v1) + (seq!['"'] + r1) =~= seq!['"'] + r1);
        if v2.len() > 0 {
            lemma_escaped_first(v2);
            lemma_escape_char_shape(v2[0]);
            let s = escaped(v2) + (seq!['"'] + r2);
            assert(s =~= escape_char(v2[0]) + (escaped(v2.drop_first()) + (seq!['"'] + r2)));
            assert(s[0] == escape_char(v2[0])[0]);
        }
        assert(v2 =~= Seq::<char>::empty());
        assert(escaped(v2) + (seq!['"'] + r2) =~= seq!['"'] + r2);
        lemma_split_eq(seq!['"'], r1, seq!['"'], r2);
        assert(v1 =~= v2);
    } else {
        lemma_escaped_first(v1);
        lemma_escape_char_shape(v1[0]);
        let t1 = escaped(v1.drop_first()) + (seq!['"'] + r1);
        let s = escaped(v1) + (seq!['"'] + r1);
        assert(s =~= escape_char(v1[0]) + t1);
        if v2.len() == 0 {
            assert(escaped(v2) + (seq!['"'] + r2) =~= seq!['"'] + r2);
            assert(s[0] == escape_char(v1[0])[0]);
        }
        lemma_escaped_first(v2);
        let t2 = escaped(v2.drop_first()) + (seq!['"'] + r2);
        assert(escaped(v2) + (seq!['"'] + r2) =~= escape_char(v2[0]) + t2);
        lemma_escape_char_prefix(v1[0], v2[0], t1, t2);
        lemma_escaped_prefix(v1.drop_first(), r1, v2.drop_first(), r2);
        assert(v1 =~= v2) by {
            assert(v1.len() == v2.len());
            assert forall|i: int| 0 <= i < v1.len() implies v1[i] == v2[i] by {
                if i > 0 {
                    assert(v1[i] == v1.drop_first()[i - 1]);
                    assert(v2[i] == v2.drop_first()[i - 1]);
                }
            }
        }
    }
}

/// An IRI between angle brackets ends at the first `>`.
proof fn lemma_bracket_prefix(p1: Seq<char>, r1: Seq<char>, p2: Seq<char>, r2: Seq<char>)
    requires
        iri_ok(p1),
        iri_ok(p2),
        bracket_chars(p1) + r1 == bracket_chars(p2) + r2,
    ensures
        p1 == p2,
        r1 == r2,
{
    let s1 = bracket_chars(p1) + r1;
    let s2 = bracket_chars(p2) + r2;
    if p1.len() < p2.len() {
        assert(s1[p1.len() as int + 1] == '>');
        assert(s2[p1.len() as int + 1] == p2[p1.len() as int]);
    }
    if p2.len() < p1.len() {
        assert(s2[p2.len() as int + 1] == '>');
        assert(s1[p2.len() as int + 1] == p1[p2.len() as int]);
    }
    lemma_split_eq(bracket_chars(p1), r1, bracket_chars(p2), r2);
    assert(p1 =~= bracket_chars(p1).subrange(1, p1.len() as int + 1));
    assert(p2 =~= bracket_chars(p2).subrange(1, p2.len() as int + 1));
}

/// A word without spaces ends where a space or the end comes.
proof fn lemma_word_prefix(l1: Seq<char>, x1: Seq<char>, l2: Seq<char>, x2: Seq<char>)
    requires
        no_space(l1),
        no_space(l2),
        separated(x1),
        separated(x2),
        l1 + x1 == l2 + x2,
    ensures
        l1 == l2,
        x1 == x2,
{
    let s1 = l1 + x1;
    let s2 = l2 + x2;
    if l1.len() < l2.len() {
        assert(s2[l1.len() as int] == l2[l1.len() as int]);
        if x1.len() > 0 {
            assert(s1[l1.len() as int] == x1[0]);
        }
    }
    if l2.len() < l1.len() {
        assert(s1[l2.len() as int] == l1[l2.len() as int]);
        if x2.len() > 0 {
            assert(s2[l2.len() as int] == x2[0]);
        }
    }
    lemma_split_eq(l1, x1, l2, x2);
}

/// The lexical form of a literal.
spec fn literal_value(l: Literal) -> Seq<char> {
    match l {
        Literal::Simple(v) => v@,
        Literal::LanguageTagged { value, language } => value@,
        Literal::Typed { value, datatype } => value@,
    }
}

/// What follows the quoted lexical form in the text of a literal.
spec fn literal_tail(l: Literal) -> Seq<char> {
    match l {
        Literal::Simple(v) => Seq::empty(),
        Literal::LanguageTagged { value, language } => seq!['@'] + language@,
        Literal::Typed { value, datatype } => seq!['^'] + seq!['^'] + bracket_chars(datatype.iri@),
    }
}

/// The first characters of the text of a term tell its kind.
proof fn lemma_term_head(t: Term, x: Seq<char>)
    requires
        plain_term(t),
    ensures
        (term_chars(t) + x).len() >= 2,
        t is Literal ==> (term_chars(t) + x)[0] == '"',
        t is BlankNode ==> (term_chars(t) + x)[0] == '_',
        (t is NamedNode || t is Triple) ==> (term_chars(t) + x)[0] == '<',
        t is NamedNode ==> (term_chars(t) + x)[1] != '<',
        t is Triple ==> (term_chars(t) + x)[1] == '<',
{
    let s = term_chars(t) + x;
    match t {
        Term::NamedNode(n) => {
            if n.iri@.len() > 0 {
                assert(s[1] == n.iri@[0]);
            } else {
                assert(s[1] == '>');
            }
        },
        Term::Literal(l) => {
            assert(term_chars(t) =~= quoted_chars(literal_value(l)) + literal_tail(l));
            assert(s[0] == '"');
        },
        _ => {},
    }
}

/// The text of a literal, followed by nothing or a space, gives the literal back.
#[verifier::spinoff_prover]
proof fn lemma_literal_prefix(l1: Literal, l2: Literal, x: Seq<char>, y: Seq<char>)
    requires
        plain_term(Term::Literal(l1)),
        plain_term(Term::Literal(l2)),
        term_chars(Term::Literal(l1)) + x == term_chars(Term::Literal(l2)) + y,
        separated(x),
        separated(y),
    ensures
        same_term(Term::Literal(l1), Term::Literal(l2)),
        x == y,
{
    let v1 = literal_value(l1);
    let v2 = literal_value(l2);
    let t1 = literal_tail(l1);
    let t2 = literal_tail(l2);
    let u1 = t1 + x;
    let u2 = t2 + y;
    assert(term_chars(Term::Literal(l1)) + x =~= seq!['"'] + (escaped(v1) + (seq!['"'] + u1)));
    assert(term_chars(Term::Literal(l2)) + y =~= seq!['"'] + (escaped(v2) + (seq!['"'] + u2)));
    lemma_split_eq(seq!['"'], escaped(v1) + (seq!['"'] + u1), seq!['"'], escaped(v2) + (seq!['"'] + u2));
    lemma_escaped_prefix(v1, u1, v2, u2);
    match l1 {
        Literal::Simple(_) => {
            assert(u1 =~= x);
            match l2 {
                Literal::Simple(_) => {
                    assert(u2 =~= y);
                },
                Literal::LanguageTagged { value, language } => {
                    assert(u2[0] == '@');
                },
                Literal::Typed { value, datatype } => {
                    assert(u2[0] == '^');
                },
            }
        },
        Literal::LanguageTagged { value, language } => {
            assert(u1 =~= seq!['@'] + (language@ + x));
            match l2 {
                Literal::Simple(_) => {
                    assert(u2 =~= y);
                    assert(u1[0] == '@');
                },
                Literal::LanguageTagged { value: value2, language: language2 } => {
                    assert(u2 =~= seq!['@'] + (language2@ + y));
                    lemma_split_eq(seq!['@'], language@ + x, seq!['@'], language2@ + y);
                    lemma_word_prefix(language@, x, language2@, y);
                },
                Literal::Typed { value: value2, datatype } => {
                    assert(u1[0] == '@');
                    assert(u2[0] == '^');
                },
            }
        },
        Literal::Typed { value, datatype } => {
            assert(u1 =~= seq!['^', '^'] + (bracket_chars(datatype.iri@) + x));
            match l2 {
                Literal::Simple(_) => {
                    assert(u2 =~= y);
                    assert(u1[0] == '^');
                },
                Literal::LanguageTagged { value: value2, language } => {
                    assert(u1[0] == '^');
                    assert(u2[0] == '@');
                },
                Literal::Typed { value: value2, datatype: datatype2 } => {
                    assert(u2 =~= seq!['^', '^'] + (bracket_chars(datatype2.iri@) + y));
                    lemma_split_eq(
                        seq!['^', '^'],
                        bracket_chars(datatype.iri@) + x,
                        seq!['^', '^'],
                        bracket_chars(datatype2.iri@) + y,
                    );
                    lemma_bracket_prefix(datatype.iri@, x, datatype2.iri@, y);
                },
            }
        },
    }
}

/// The text of a ground term, followed by nothing or a space, gives the term
/// back, and what follows it.
#[verifier::spinoff_prover]
#[verifier::rlimit(40)]
proof fn lemma_term_chars_prefix(a: Term, b: Term, x: Seq<char>, y: Seq<char>)
    requires
        plain_term(a),
        plain_term(b),
        term_chars(a) + x == term_chars(b) + y,
        separated(x),
        separated(y),
    ensures
        same_term(a, b),
        x == y,
    decreases a,
{
    lemma_term_head(a, x);
    lemma_term_head(b, y);
    match a {
        Term::NamedNode(n) => match b {
            Term::NamedNode(m) => {
                lemma_bracket_prefix(n.iri@, x, m.iri@, y);
            },
            _ => {},
        },
        Term::BlankNode(n) => match b {
            Term::BlankNode(m) => {
                let u = seq!['_'] + seq![':'];
                assert(term_chars(a) + x =~= u + (n.id@ + x));
                assert(term_chars(b) + y =~= u + (m.id@ + y));
                lemma_split_eq(u, n.id@ + x, u, m.id@ + y);
                lemma_word_prefix(n.id@, x, m.id@, y);
            },
            _ => {},
        },
        Term::Literal(l1) => match b {
            Term::Literal(l2) => {
                lemma_literal_prefix(l1, l2, x, y);
            },
            _ => {},
        },
        Term::Triple(tr) => match b {
            Term::Triple(tr2) => {
                let open = seq!['<'] + seq!['<'] + seq![' '];
                let z = seq![' '] + seq!['>'] + seq!['>'];
                let p1 = bracket_chars(tr.predicate.iri@);
                let p2 = bracket_chars(tr2.predicate.iri@);
                let o1 = term_chars(tr.object) + (z + x);
                let o2 = term_chars(tr2.object) + (z + y);
                let m1 = seq![' '] + (p1 + (seq![' '] + o1));
                let m2 = seq![' '] + (p2 + (seq![' '] + o2));
                assert(term_chars(a) + x =~= open + (term_chars(tr.subject) + m1));
                assert(term_chars(b) + y =~= open + (term_chars(tr2.subject) + m2));
                lemma_split_eq(open, term_chars(tr.subject) + m1, open, term_chars(tr2.subject) + m2);
                assert(m1[0] == ' ');
                assert(m2[0] == ' ');
                lemma_term_chars_prefix(tr.subject, tr2.subject, m1, m2);
                lemma_split_eq(seq![' '], p1 + (seq![' '] + o1), seq![' '], p2 + (seq![' '] + o2));
                lemma_bracket_prefix(tr.predicate.iri@, seq![' '] + o1, tr2.predicate.iri@, seq![' '] + o2);
                lemma_split_eq(seq![' '], o1, seq![' '], o2);
                assert((z + x)[0] == ' ');
                assert((z + y)[0] == ' ');
                lemma_term_chars_prefix(tr.object, tr2.object, z + x, z + y);
                lemma_split_eq(z, x, z, y);
            },
            _ => {},
        },
    }
}

/// Terms are told apart by their text: two terms whose IRIs hold no angle
/// brackets and whose language tags and blank node labels hold no spaces,
/// written alike, are the same term.
pub proof fn law_term_text_injective(a: Term, b: Term)
    requires
        plain_term(a),
        plain_term(b),
        term_text(a) == term_text(b),
    ensures
        same_term(a, b),
{
    lemma_term_text_chars(a);
    lemma_term_text_chars(b);
    vstd::utf8::encode_utf8_decode_utf8(term_chars(a));
    vstd::utf8::encode_utf8_decode_utf8(term_chars(b));
    assert(term_chars(a) + Seq::<char>::empty() =~= term_chars(a));
    assert(term_chars(b) + Seq::<char>::empty() =~= term_chars(b));
    lemma_term_chars_prefix(a, b, Seq::empty(), Seq::empty());
}

/// A quad with no blank node in it, its IRIs without angle brackets and its
/// language tags without spaces.
pub open spec fn ground_quad(q: Quad) -> bool {
    &&& ground_term(q.subject)
    &&& iri_ok(q.predicate.iri@)
    &&& ground_term(q.object)
    &&& match q.graph_name {
        GraphName::NamedNode(n) => iri_ok(n.iri@),
        GraphName::BlankNode(_) => false,
        GraphName::DefaultGraph => true,
    }
}

/// Two quads are the same: the same terms, in the same graph.
pub open spec fn same_quad(q: Quad, q2: Quad) -> bool {
    &&& same_term(q.subject, q2.subject)
    &&& q.predicate.iri@ == q2.predicate.iri@
    &&& same_term(q.object, q2.object)
    &&& match q.graph_name {
        GraphName::NamedNode(n) => match q2.graph_name {
            GraphName::NamedNode(m) => n.iri@ == m.iri@,
            _ => false,
        },
        GraphName::BlankNode(x) => match q2.graph_name {
            GraphName::BlankNode(y) => x.id@ == y.id@,
            _ => false,
        },
        GraphName::DefaultGraph => q2.graph_name is DefaultGraph,
    }
}

/// The characters of the graph name at the end of the line of a quad.
spec fn graph_chars(g: GraphName) -> Seq<char> {
    match g {
        GraphName::NamedNode(n) => seq![' '] + bracket_chars(n.iri@),
        _ => Seq::empty(),
    }
}

/// What follows the subject in the line of a quad.
spec fn after_subject(q: Quad) -> Seq<char> {
    seq![' '] + (bracket_chars(q.predicate.iri@) + (seq![' '] + (term_chars(q.object) + graph_chars(q.graph_name))))
}

/// The characters of the line of a quad with no blank node.
spec fn quad_chars(q: Quad) -> Seq<char> {
    term_chars(q.subject) + after_subject(q)
}

/// With no blank node listed, the line of a quad is the UTF-8 encoding of its characters.
#[verifier::spinoff_prover]
proof fn lemma_ground_line(q: Quad, hs: Seq<u64>)
    requires
        ground_quad(q),
    ensures
        quad_line(q, Seq::empty(), hs) == encode_utf8(quad_chars(q)),
{
    let e = Seq::<Seq<char>>::empty();
    assert(labelled_term_text(q.subject, e, hs) == term_text(q.subject));
    assert(labelled_term_text(q.object, e, hs) == term_text(q.object));
    lemma_term_text_chars(q.subject);
    lemma_term_text_chars(q.object);
    lemma_bracket_text(q.predicate.iri@);
    lemma_encode_ascii(' ', 32u8);
    let sc = term_chars(q.subject);
    let pc = bracket_chars(q.predicate.iri@);
    let oc = term_chars(q.object);
    let gc = graph_chars(q.graph_name);
    let gb = match q.graph_name {
        GraphName::NamedNode(n) => seq![32u8] + iri_text(n.iri@),
        _ => Seq::<u8>::empty(),
    };
    match q.graph_name {
        GraphName::NamedNode(n) => {
            lemma_bracket_text(n.iri@);
            lemma_encode_concat(seq![' '], bracket_chars(n.iri@));
        },
        _ => {
            assert(encode_utf8(Seq::<char>::empty()) =~= Seq::<u8>::empty());
        },
    }
    assert(encode_utf8(gc) == gb);
    lemma_encode_concat(oc, gc);
    lemma_encode_concat(seq![' '], oc + gc);
    lemma_encode_concat(pc, seq![' '] + (oc + gc));
    lemma_encode_concat(seq![' '], pc + (seq![' '] + (oc + gc)));
    lemma_encode_concat(sc, after_subject(q));
    assert(quad_line(q, e, hs) =~= term_text(q.subject) + seq![32u8] + iri_text(q.predicate.iri@) + seq![32u8]
        + term_text(q.object) + gb);
    assert(quad_line(q, e, hs) =~= encode_utf8(quad_chars(q)));
}

/// Quads with no blank node in them are told apart by their characters.
#[verifier::spinoff_prover]
proof fn lemma_quad_chars_injective(q1: Quad, q2: Quad)
    requires
        ground_quad(q1),
        ground_quad(q2),
        quad_chars(q1) == quad_chars(q2),
    ensures
        same_quad(q1, q2),
{
    let m1 = after_subject(q1);
    let m2 = after_subject(q2);
    let p1 = bracket_chars(q1.predicate.iri@);
    let p2 = bracket_chars(q2.predicate.iri@);
    let g1 = graph_chars(q1.graph_name);
    let g2 = graph_chars(q2.graph_name);
    let o1 = term_chars(q1.object) + g1;
    let o2 = term_chars(q2.object) + g2;
    assert(m1[0] == ' ');
    assert(m2[0] == ' ');
    lemma_ground_plain(q1.subject);
    lemma_ground_plain(q2.subject);
    lemma_ground_plain(q1.object);
    lemma_ground_plain(q2.object);
    lemma_term_chars_prefix(q1.subject, q2.subject, m1, m2);
    lemma_split_eq(seq![' '], p1 + (seq![' '] + o1), seq![' '], p2 + (seq![' '] + o2));
    lemma_bracket_prefix(q1.predicate.iri@, seq![' '] + o1, q2.predicate.iri@, seq![' '] + o2);
    lemma_split_eq(seq![' '], o1, seq![' '], o2);
    match q1.graph_name {
        GraphName::NamedNode(n) => {
            assert(g1[0] == ' ');
        },
        _ => {},
    }
    match q2.graph_name {
        GraphName::NamedNode(n) => {
            assert(g2[0] == ' ');
        },
        _ => {},
    }
    lemma_term_chars_prefix(q1.object, q2.object, g1, g2);
    match q1.graph_name {
        GraphName::NamedNode(n) => match q2.graph_name {
            GraphName::NamedNode(m) => {
                let b1 = bracket_chars(n.iri@);
                let b2 = bracket_chars(m.iri@);
                lemma_split_eq(seq![' '], b1, seq![' '], b2);
                assert(b1 + Seq::<char>::empty() =~= b1);
                assert(b2 + Seq::<char>::empty() =~= b2);
                lemma_bracket_prefix(n.iri@, Seq::empty(), m.iri@, Seq::empty());
            },
            _ => {
                assert(g1.len() > 0);
            },
        },
        _ => match q2.graph_name {
            GraphName::NamedNode(m) => {
                assert(g2.len() > 0);
            },
            _ => {},
        },
    }
}

/// The lines of quads, no blank node being listed.
spec fn ground_lines(qs: Seq<Quad>) -> Seq<Seq<u8>> {
    Seq::new(qs.len(), |i: int| quad_line(qs[i], Seq::empty(), Seq::empty()))
}

/// The canonical form of a dataset with no blank node is its sorted lines.
proof fn lemma_ground_canonical_form(qs: Seq<Quad>)
    requires
        forall|i: int| 0 <= i < qs.len() ==> ground_quad(#[trigger] qs[i]),
    ensures
        iso_canonical_form(qs) == ground_lines(qs).sort_by(bytes_order()),
{
    lemma_blank_nodes_labels(qs);
    let bs = blank_nodes(qs);
    if bs.len() > 0 {
        assert(bs.contains(bs[0]));
        let i = choose|i: int| 0 <= i < qs.len() && blank_label_of(#[trigger] qs[i], bs[0]);
        assert(ground_quad(qs[i]));
    }
    assert(bs =~= Seq::<Seq<char>>::empty());
    let z = Seq::new(bs.len(), |i: int| 0u64);
    let rounds = hash_rounds(qs, bs, z, 0, bs.len());
    assert(rounds.0 == z);
    assert(z =~= Seq::<u64>::empty());
    assert(distinguish(qs, bs, rounds.0, rounds.1, 0) == label(qs, bs, z));
    assert(Seq::new(qs.len(), |i: int| quad_line(qs[i], bs, z)) =~= ground_lines(qs));
}

/// Datasets with no blank node in them are told apart by their canonical
/// forms: where their IRIs hold no angle brackets and their language tags no
/// spaces, two such datasets with the same canonical form hold as many quads,
/// and each quad of one is a quad of the other.
#[verifier::spinoff_prover]
pub proof fn law_ground_canonical_form(qs: Seq<Quad>, qs2: Seq<Quad>)
    requires
        forall|i: int| 0 <= i < qs.len() ==> ground_quad(#[trigger] qs[i]),
        forall|i: int| 0 <= i < qs2.len() ==> ground_quad(#[trigger] qs2[i]),
        iso_canonical_form(qs) == iso_canonical_form(qs2),
    ensures
        qs.len() == qs2.len(),
        forall|i: int|
            0 <= i < qs.len() ==> exists|j: int| #![trigger qs2[j]] 0 <= j < qs2.len() && same_quad(#[trigger] qs[i], qs2[j]),
        forall|j: int|
            0 <= j < qs2.len() ==> exists|i: int| #![trigger qs[i]] 0 <= i < qs.len() && same_quad(qs[i], #[trigger] qs2[j]),
{
    lemma_ground_canonical_form(qs);
    lemma_ground_canonical_form(qs2);
    let l1 = ground_lines(qs);
    let l2 = ground_lines(qs2);
    lemma_bytes_order_total();
    l1.lemma_sort_by_ensures(bytes_order());
    l2.lemma_sort_by_ensures(bytes_order());
    l1.to_multiset_ensures();
    l2.to_multiset_ensures();
    assert(l1.to_multiset() == l2.to_multiset());
    assert forall|i: int| 0 <= i < qs.len() implies exists|j: int| #![trigger qs2[j]] 0 <= j < qs2.len() && same_quad(
        #[trigger] qs[i],
        qs2[j],
    ) by {
        assert(l1.contains(l1[i]));
        assert(l2.to_multiset().count(l1[i]) > 0);
        let j = choose|j: int| 0 <= j < l2.len() && l2[j] == l1[i];
        lemma_ground_line(qs[i], Seq::empty());
        lemma_ground_line(qs2[j], Seq::empty());
        vstd::utf8::encode_utf8_decode_utf8(quad_chars(qs[i]));
        vstd::utf8::encode_utf8_decode_utf8(quad_chars(qs2[j]));
        lemma_quad_chars_injective(qs[i], qs2[j]);
    }
    assert forall|j: int| 0 <= j < qs2.len() implies exists|i: int| #![trigger qs[i]] 0 <= i < qs.len() && same_quad(
        qs[i],
        #[trigger] qs2[j],
    ) by {
        assert(l2.contains(l2[j]));
        assert(l1.to_multiset().count(l2[j]) > 0);
        let i = choose|i: int| 0 <= i < l1.len() && l1[i] == l2[j];
        lemma_ground_line(qs[i], Seq::empty());
        lemma_ground_line(qs2[j], Seq::empty());
        vstd::utf8::encode_utf8_decode_utf8(quad_chars(qs[i]));
        vstd::utf8::encode_utf8_decode_utf8(quad_chars(qs2[j]));
        lemma_quad_chars_injective(qs[i], qs2[j]);
    }
}

/// A quad whose terms are plain, whose IRIs hold no angle brackets and whose
/// graph's blank node label, if any, no space.
pub open spec fn plain_quad(q: Quad) -> bool {
    &&& plain_term(q.subject)
    &&& iri_ok(q.predicate.iri@)
    &&& plain_term(q.object)
    &&& match q.graph_name {
        GraphName::NamedNode(n) => iri_ok(n.iri@),
        GraphName::BlankNode(b) => no_space(b.id@),
        GraphName::DefaultGraph => true,
    }
}

/// The characters of a blank node in a line: its hash where it is listed,
/// else its label.
spec fn line_label_chars(id: Seq<char>, bs: Seq<Seq<char>>, hs: Seq<u64>) -> Seq<char> {
    seq!['_'] + seq![':'] + if index_in(bs, id) >= 0 {
        hex_format(hs[index_in(bs, id)] as nat)
    } else {
        id
    }
}

/// The characters of a term in a line.
spec fn line_term_chars(t: Term, bs: Seq<Seq<char>>, hs: Seq<u64>) -> Seq<char> {
    match t {
        Term::BlankNode(b) => line_label_chars(b.id@, bs, hs),
        _ => term_chars(t),
    }
}

/// The characters of the graph name at the end of a line.
spec fn line_graph_chars(g: GraphName, bs: Seq<Seq<char>>, hs: Seq<u64>) -> Seq<char> {
    match g {
        GraphName::NamedNode(n) => seq![' '] + bracket_chars(n.iri@),
        GraphName::BlankNode(b) => seq![' '] + line_label_chars(b.id@, bs, hs),
        GraphName::DefaultGraph => Seq::empty(),
    }
}

/// What follows the subject in a line.
spec fn line_after_subject(q: Quad, bs: Seq<Seq<char>>, hs: Seq<u64>) -> Seq<char> {
    seq![' '] + (bracket_chars(q.predicate.iri@) + (seq![' '] + (line_term_chars(q.object, bs, hs) + line_graph_chars(
        q.graph_name,
        bs,
        hs,
    ))))
}

/// The characters of the line of a quad.
spec fn line_chars(q: Quad, bs: Seq<Seq<char>>, hs: Seq<u64>) -> Seq<char> {
    line_term_chars(q.subject, bs, hs) + line_after_subject(q, bs, hs)
}

proof fn lemma_label_chars_text(id: Seq<char>, bs: Seq<Seq<char>>, hs: Seq<u64>)
    ensures
        (if index_in(bs, id) >= 0 {
            hashed_label_text(hs[index_in(bs, id)])
        } else {
            label_text(id)
        }) == encode_utf8(line_label_chars(id, bs, hs)),
{
    lemma_encode_ascii('_', 95u8);
    lemma_encode_ascii(':', 58u8);
    let rest = if index_in(bs, id) >= 0 {
        hex_format(hs[index_in(bs, id)] as nat)
    } else {
        id
    };
    lemma_encode3(seq!['_'], seq![':'], rest);
    assert(seq![95u8, 58u8] =~= seq![95u8] + seq![58u8]);
}

proof fn lemma_line_term_text(t: Term, bs: Seq<Seq<char>>, hs: Seq<u64>)
    ensures
        labelled_term_text(t, bs, hs) == encode_utf8(line_term_chars(t, bs, hs)),
{
    lemma_term_text_chars(t);
    if let Term::BlankNode(b) = t {
        lemma_label_chars_text(b.id@, bs, hs);
    }
}

/// The line of a quad is the UTF-8 encoding of its characters.
#[verifier::spinoff_prover]
proof fn lemma_line_chars(q: Quad, bs: Seq<Seq<char>>, hs: Seq<u64>)
    ensures
        quad_line(q, bs, hs) == encode_utf8(line_chars(q, bs, hs)),
{
    lemma_line_term_text(q.subject, bs, hs);
    lemma_line_term_text(q.object, bs, hs);
    lemma_bracket_text(q.predicate.iri@);
    lemma_encode_ascii(' ', 32u8);
    let sc = line_term_chars(q.subject, bs, hs);
    let pc = bracket_chars(q.predicate.iri@);
    let oc = line_term_chars(q.object, bs, hs);
    let gc = line_graph_chars(q.graph_name, bs, hs);
    let gb = match q.graph_name {
        GraphName::DefaultGraph => Seq::<u8>::empty(),
        GraphName::NamedNode(n) => seq![32u8] + iri_text(n.iri@),
        GraphName::BlankNode(b) => seq![32u8] + if index_in(bs, b.id@) >= 0 {
            hashed_label_text(hs[index_in(bs, b.id@)])
        } else {
            label_text(b.id@)
        },
    };
    match q.graph_name {
        GraphName::NamedNode(n) => {
            lemma_bracket_text(n.iri@);
            lemma_encode_concat(seq![' '], bracket_chars(n.iri@));
        },
        GraphName::BlankNode(b) => {
            lemma_label_chars_text(b.id@, bs, hs);
            lemma_encode_concat(seq![' '], line_label_chars(b.id@, bs, hs));
        },
        GraphName::DefaultGraph => {
            assert(encode_utf8(Seq::<char>::empty()) =~= Seq::<u8>::empty());
        },
    }
    assert(encode_utf8(gc) == gb);
    lemma_encode_concat(oc, gc);
    lemma_encode_concat(seq![' '], oc + gc);
    lemma_encode_concat(pc, seq![' '] + (oc + gc));
    lemma_encode_concat(seq![' '], pc + (seq![' '] + (oc + gc)));
    lemma_encode_concat(sc, line_after_subject(q, bs, hs));
    assert(quad_line(q, bs, hs) =~= labelled_term_text(q.subject, bs, hs) + seq![32u8] + iri_text(q.predicate.iri@)
        + seq![32u8] + labelled_term_text(q.object, bs, hs) + gb);
    assert(quad_line(q, bs, hs) =~= encode_utf8(line_chars(q, bs, hs)));
}

/// A line of a quad with no blank node is the line of no other quad.
#[verifier::spinoff_prover]
proof fn lemma_ground_line_match(q: Quad, q2: Quad, bs: Seq<Seq<char>>, hs: Seq<u64>)
    requires
        ground_quad(q),
        plain_quad(q2),
        quad_chars(q) == line_chars(q2, bs, hs),
    ensures
        same_quad(q, q2),
{
    lemma_ground_plain(q.subject);
    lemma_ground_plain(q.object);
    let m1 = after_subject(q);
    let m2 = line_after_subject(q2, bs, hs);
    lemma_term_head(q.subject, m1);
    if q2.subject is BlankNode {
        assert(line_chars(q2, bs, hs)[0] == '_');
    }
    assert(line_term_chars(q2.subject, bs, hs) == term_chars(q2.subject));
    assert(m1[0] == ' ');
    assert(m2[0] == ' ');
    lemma_term_chars_prefix(q.subject, q2.subject, m1, m2);
    let p1 = bracket_chars(q.predicate.iri@);
    let p2 = bracket_chars(q2.predicate.iri@);
    let g1 = graph_chars(q.graph_name);
    let g2 = line_graph_chars(q2.graph_name, bs, hs);
    let o1 = term_chars(q.object) + g1;
    let o2 = line_term_chars(q2.object, bs, hs) + g2;
    lemma_split_eq(seq![' '], p1 + (seq![' '] + o1), seq![' '], p2 + (seq![' '] + o2));
    lemma_bracket_prefix(q.predicate.iri@, seq![' '] + o1, q2.predicate.iri@, seq![' '] + o2);
    lemma_split_eq(seq![' '], o1, seq![' '], o2);
    lemma_term_head(q.object, g1);
    if q2.object is BlankNode {
        assert(o2[0] == '_');
    }
    assert(line_term_chars(q2.object, bs, hs) == term_chars(q2.object));
    match q.graph_name {
        GraphName::NamedNode(n) => {
            assert(g1[0] == ' ');
        },
        _ => {},
    }
    match q2.graph_name {
        GraphName::DefaultGraph => {},
        _ => {
            assert(g2[0] == ' ');
        },
    }
    lemma_term_chars_prefix(q.object, q2.object, g1, g2);
    match q.graph_name {
        GraphName::NamedNode(n) => match q2.graph_name {
            GraphName::NamedNode(m) => {
                let b1 = bracket_chars(n.iri@);
                let b2 = bracket_chars(m.iri@);
                lemma_split_eq(seq![' '], b1, seq![' '], b2);
                assert(b1 + Seq::<char>::empty() =~= b1);
                assert(b2 + Seq::<char>::empty() =~= b2);
                lemma_bracket_prefix(n.iri@, Seq::empty(), m.iri@, Seq::empty());
            },
            GraphName::BlankNode(m) => {
                let b1 = bracket_chars(n.iri@);
                let b2 = line_label_chars(m.id@, bs, hs);
                lemma_split_eq(seq![' '], b1, seq![' '], b2);
                assert(b1[0] == '<');
                assert(b2[0] == '_');
            },
            GraphName::DefaultGraph => {
                assert(g1.len() > 0);
            },
        },
        _ => match q2.graph_name {
            GraphName::DefaultGraph => {},
            _ => {
                assert(g2.len() > 0);
            },
        },
    }
}

proof fn lemma_distinguish_is_label(qs: Seq<Quad>, bs: Seq<Seq<char>>, hs: Seq<u64>, cells: Seq<u64>, fuel: nat)
    ensures
        exists|hs2: Seq<u64>| distinguish(qs, bs, hs, cells, fuel) == #[trigger] label(qs, bs, hs2),
    decreases fuel, 0nat,
{
    match best_cell(cells, cells.len() as int) {
        Some((_, h)) => {
            if fuel > 0 {
                let ms = members(cells, h, cells.len() as int);
                lemma_best_cell(cells, cells.len() as int);
                lemma_members(cells, h, cells.len() as int);
                let j = choose|j: int| 0 <= j < cells.len() && cells[j] == h;
                assert(ms.contains(j));
                lemma_least_outcome_min(qs, bs, hs, ms, (fuel - 1) as nat, ms.len());
                let i = choose|i: int|
                    0 <= i < ms.len() && least_outcome(qs, bs, hs, ms, (fuel - 1) as nat, ms.len())
                        == #[trigger] outcome(qs, bs, hs, ms[i], (fuel - 1) as nat);
                lemma_outcome_is_label(qs, bs, hs, ms[i], (fuel - 1) as nat);
            } else {
                assert(distinguish(qs, bs, hs, cells, fuel) == label(qs, bs, hs));
            }
        },
        None => {
            assert(distinguish(qs, bs, hs, cells, fuel) == label(qs, bs, hs));
        },
    }
}

proof fn lemma_outcome_is_label(qs: Seq<Quad>, bs: Seq<Seq<char>>, hs: Seq<u64>, i: int, fuel: nat)
    ensures
        exists|hs2: Seq<u64>| outcome(qs, bs, hs, i, fuel) == #[trigger] label(qs, bs, hs2),
    decreases fuel, 1nat,
{
    let marked_hs = hs.update(i, marked(hs[i]));
    let rounds = hash_rounds(qs, bs, marked_hs, 0, bs.len());
    lemma_distinguish_is_label(qs, bs, rounds.0, rounds.1, fuel);
}

/// The lines of the quads, for the given hashes.
spec fn lines_for(qs: Seq<Quad>, bs: Seq<Seq<char>>, hs: Seq<u64>) -> Seq<Seq<u8>> {
    Seq::new(qs.len(), |i: int| quad_line(qs[i], bs, hs))
}

/// A quad with no blank node that one dataset holds, any dataset of the same
/// canonical form holds too: where the IRIs of both hold no angle brackets
/// and their language tags and blank node labels no spaces, a dataset whose
/// canonical form is that of `qs` holds a quad that is the same as each quad
/// of `qs` with no blank node.
#[verifier::spinoff_prover]
pub proof fn law_canonical_form_keeps_ground_quads(qs: Seq<Quad>, qs2: Seq<Quad>, i: int)
    requires
        0 <= i < qs.len(),
        ground_quad(qs[i]),
        forall|j: int| 0 <= j < qs2.len() ==> plain_quad(#[trigger] qs2[j]),
        iso_canonical_form(qs) == iso_canonical_form(qs2),
    ensures
        exists|j: int| 0 <= j < qs2.len() && same_quad(qs[i], #[trigger] qs2[j]),
{
    let bs1 = blank_nodes(qs);
    let bs2 = blank_nodes(qs2);
    let r1 = hash_rounds(qs, bs1, Seq::new(bs1.len(), |i: int| 0u64), 0, bs1.len());
    let r2 = hash_rounds(qs2, bs2, Seq::new(bs2.len(), |i: int| 0u64), 0, bs2.len());
    lemma_distinguish_is_label(qs, bs1, r1.0, r1.1, bs1.len());
    lemma_distinguish_is_label(qs2, bs2, r2.0, r2.1, bs2.len());
    let hs1 = choose|hs: Seq<u64>| iso_canonical_form(qs) == #[trigger] label(qs, bs1, hs);
    let hs2 = choose|hs: Seq<u64>| iso_canonical_form(qs2) == #[trigger] label(qs2, bs2, hs);
    let l1 = lines_for(qs, bs1, hs1);
    let l2 = lines_for(qs2, bs2, hs2);
    assert(label(qs, bs1, hs1) == l1.sort_by(bytes_order()));
    assert(label(qs2, bs2, hs2) == l2.sort_by(bytes_order()));
    lemma_bytes_order_total();
    l1.lemma_sort_by_ensures(bytes_order());
    l2.lemma_sort_by_ensures(bytes_order());
    l1.to_multiset_ensures();
    l2.to_multiset_ensures();
    assert(l1.to_multiset() == l2.to_multiset());
    assert(l1.contains(l1[i]));
    assert(l2.to_multiset().count(l1[i]) > 0);
    let j = choose|j: int| 0 <= j < l2.len() && l2[j] == l1[i];
    lemma_line_chars(qs[i], bs1, hs1);
    lemma_line_chars(qs2[j], bs2, hs2);
    assert(line_chars(qs[i], bs1, hs1) =~= quad_chars(qs[i]));
    vstd::utf8::encode_utf8_decode_utf8(quad_chars(qs[i]));
    vstd::utf8::encode_utf8_decode_utf8(line_chars(qs2[j], bs2, hs2));
    lemma_ground_line_match(qs[i], qs2[j], bs2, hs2);
}

} // verus!
