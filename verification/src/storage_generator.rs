//! The RDF view of a variation graph: nodes with their sequences and links,
//! and the steps of paths with their ranks and FALDO positions, generated for
//! a quad pattern.

use vstd::prelude::*;
use crate::model::{GraphName, Literal, NamedNode, Quad, Term, XSD_STRING};
use crate::numeric_encoder::EncodedTerm;
use crate::term_encoder::{encode_term_spec, TermEncoder, XSD_INTEGER};
use crate::text::{
    decimal, lemma_decimal, lemma_split_slash_len, lemma_split_slash_segment, parse_u64,
    parse_u64_spec, push_decimal, split_slash, split_slash_chars, str_eq, string_of, views,
};
use crate::utils::chars_are;
use crate::vg::{
    GraphView, Handle, VariationGraph, FALDO_BEGIN, FALDO_END, FALDO_EXACT_POSITION,
    FALDO_POSITION, FALDO_POSITION_PRED, FALDO_REFERENCE, FALDO_REGION, RDF_TYPE, RDF_VALUE,
    VG_LINKS, VG_LINKS_FORWARD_TO_FORWARD, VG_LINKS_FORWARD_TO_REVERSE,
    VG_LINKS_REVERSE_TO_FORWARD, VG_LINKS_REVERSE_TO_REVERSE, VG_NODE, VG_NODE_PRED, VG_PATH,
    VG_PATH_PRED, VG_POSITION, VG_RANK, VG_REVERSE_OF_NODE, VG_STEP,
};
use crate::xsd::{i64_lexical, i64_lexical_spec};

verus! {

// ---------------------------------------------------------------------------
// IRIs of the view

pub open spec fn node_segment() -> Seq<char> {
    seq!['/', 'n', 'o', 'd', 'e', '/']
}

pub open spec fn path_segment() -> Seq<char> {
    seq!['/', 'p', 'a', 't', 'h', '/']
}

pub open spec fn step_segment() -> Seq<char> {
    seq!['/', 's', 't', 'e', 'p', '/']
}

pub open spec fn position_segment() -> Seq<char> {
    seq!['/', 'p', 'o', 's', 'i', 't', 'i', 'o', 'n', '/']
}

/// `{base}/node/{id}`
pub open spec fn node_iri(base: Seq<char>, id: u64) -> Seq<char> {
    base + node_segment() + decimal(id as nat)
}

/// `{base}/path/{name}`
pub open spec fn path_iri(base: Seq<char>, name: Seq<char>) -> Seq<char> {
    base + path_segment() + name
}

/// `{base}/path/{name}/step/{rank}`
pub open spec fn step_iri(base: Seq<char>, name: Seq<char>, rank: u64) -> Seq<char> {
    path_iri(base, name) + step_segment() + decimal(rank as nat)
}

/// `{base}/path/{name}/position/{position}`
pub open spec fn position_iri(base: Seq<char>, name: Seq<char>, position: u64) -> Seq<char> {
    path_iri(base, name) + position_segment() + decimal(position as nat)
}

/// The id that an IRI names a node by: its last segment read as a `u64`,
/// where the segment before it is `node`.
pub open spec fn node_id_of_iri(iri: Seq<char>) -> Option<u64> {
    let parts = split_slash(iri);
    if parts.len() >= 2 && parts[parts.len() - 2] == seq!['n', 'o', 'd', 'e'] {
        parse_u64_spec(parts.last())
    } else {
        None
    }
}

/// The node id of a term: only an IRI names a node.
pub open spec fn node_id_of(t: Term) -> Option<u64> {
    match t {
        Term::NamedNode(n) => node_id_of_iri(n.iri@),
        _ => None,
    }
}

/// What a step IRI says: the path's name, whether it gives a rank (or else a
/// position), and the number. Read from the last five segments:
/// `path`, the name, `step` or `position`, and the number.
pub open spec fn step_fields_of_iri(iri: Seq<char>) -> Option<(Seq<char>, bool, u64)> {
    let p = split_slash(iri);
    let n = p.len();
    if n < 5 || p[n - 4] != seq!['p', 'a', 't', 'h'] {
        None
    } else if p[n - 2] == seq!['s', 't', 'e', 'p'] {
        match parse_u64_spec(p[n - 1]) {
            Some(v) => Some((p[n - 3], true, v)),
            None => None,
        }
    } else if p[n - 2] == seq!['p', 'o', 's', 'i', 't', 'i', 'o', 'n'] {
        match parse_u64_spec(p[n - 1]) {
            Some(v) => Some((p[n - 3], false, v)),
            None => None,
        }
    } else {
        None
    }
}

/// The step fields of a term: only an IRI has them.
pub open spec fn step_fields_of(t: Option<&Term>) -> Option<(Seq<char>, bool, u64)> {
    match t {
        Some(Term::NamedNode(n)) => step_fields_of_iri(n.iri@),
        _ => None,
    }
}

/// A step IRI, read: the path's name and a rank or a position.
pub enum StepType {
    Rank(String, u64),
    Position(String, u64),
}

// ---------------------------------------------------------------------------
// Generated triples

/// The object of a generated triple: an IRI, a simple literal, or an
/// `xsd:integer`.
pub enum ObjectView {
    Iri(Seq<char>),
    Str(Seq<char>),
    Int(i64),
}

/// A generated triple: subject and predicate IRIs and an object.
pub struct TripleView {
    pub subject: Seq<char>,
    pub predicate: Seq<char>,
    pub object: ObjectView,
}

pub open spec fn tv(subject: Seq<char>, predicate: Seq<char>, object: ObjectView) -> TripleView {
    TripleView { subject, predicate, object }
}

/// The triple where the condition holds, else none.
pub open spec fn opt(c: bool, t: TripleView) -> Seq<TripleView> {
    if c {
        seq![t]
    } else {
        Seq::empty()
    }
}

/// Whether a term is the given object: an IRI, a simple literal, or the
/// `xsd:integer` literal whose lexical form `i64::to_string` writes.
pub open spec fn object_is(o: Term, v: ObjectView) -> bool {
    match v {
        ObjectView::Iri(s) => o matches Term::NamedNode(n) && n.iri@ == s,
        ObjectView::Str(s) => o matches Term::Literal(Literal::Simple(l)) && l@ == s,
        ObjectView::Int(i) => o matches Term::Literal(Literal::Typed { value, datatype })
            && value@ == i64_lexical_spec(i) && datatype.iri@ == XSD_INTEGER@,
    }
}

/// Whether a quad holds the triple in the graph.
pub open spec fn quad_is(q: Quad, t: TripleView, g: GraphName) -> bool {
    &&& q.subject matches Term::NamedNode(n) && n.iri@ == t.subject
    &&& q.predicate.iri@ == t.predicate
    &&& object_is(q.object, t.object)
    &&& q.graph_name == g
}

/// Whether the quads hold the triples, in order, in the graph.
pub open spec fn quads_are(r: Seq<Quad>, ts: Seq<TripleView>, g: GraphName) -> bool {
    &&& r.len() == ts.len()
    &&& forall|i: int| 0 <= i < r.len() ==> quad_is(#[trigger] r[i], ts[i], g)
}

proof fn lemma_quads_are_push(r: Seq<Quad>, ts: Seq<TripleView>, q: Quad, t: TripleView, g: GraphName)
    requires
        quads_are(r, ts, g),
        quad_is(q, t, g),
    ensures
        quads_are(r.push(q), ts.push(t), g),
{
    assert forall|i: int| 0 <= i < r.len() + 1 implies quad_is(#[trigger] r.push(q)[i], ts.push(t)[i], g) by {
        if i < r.len() {
            assert(r.push(q)[i] == r[i]);
        }
    }
}

proof fn lemma_quads_are_append(
    r1: Seq<Quad>,
    t1: Seq<TripleView>,
    r2: Seq<Quad>,
    t2: Seq<TripleView>,
    g: GraphName,
)
    requires
        quads_are(r1, t1, g),
        quads_are(r2, t2, g),
    ensures
        quads_are(r1 + r2, t1 + t2, g),
{
    assert forall|i: int| 0 <= i < r1.len() + r2.len() implies quad_is(
        #[trigger] (r1 + r2)[i],
        (t1 + t2)[i],
        g,
    ) by {
        if i < r1.len() {
            assert((r1 + r2)[i] == r1[i]);
            assert((t1 + t2)[i] == t1[i]);
        } else {
            assert((r1 + r2)[i] == r2[i - r1.len()]);
            assert((t1 + t2)[i] == t2[i - r1.len()]);
        }
    }
}

/// Appends `more` to `results`.
fn append_quads(results: &mut Vec<Quad>, more: Vec<Quad>, Ghost(ts): Ghost<Seq<TripleView>>, Ghost(more_ts): Ghost<Seq<TripleView>>, Ghost(g): Ghost<GraphName>)
    requires
        quads_are(old(results)@, ts, g),
        quads_are(more@, more_ts, g),
    ensures
        quads_are(final(results)@, ts + more_ts, g),
        final(results)@ == old(results)@ + more@,
{
    let mut more = more;
    proof {
        lemma_quads_are_append(results@, ts, more@, more_ts, g);
    }
    results.append(&mut more);
}

// ---------------------------------------------------------------------------
// Patterns

/// Whether the pattern term is the given IRI.
pub open spec fn is_vocab(t: Option<&Term>, vocab: Seq<char>) -> bool {
    t matches Some(Term::NamedNode(n)) && n.iri@ == vocab
}

/// Whether the pattern term is a blank node.
pub open spec fn is_blank(t: Option<&Term>) -> bool {
    t matches Some(Term::BlankNode(_))
}

/// Whether the predicate is one of the link predicates.
pub open spec fn is_node_related(p: Option<&Term>) -> bool {
    ||| is_vocab(p, VG_LINKS@)
    ||| is_vocab(p, VG_LINKS_FORWARD_TO_FORWARD@)
    ||| is_vocab(p, VG_LINKS_FORWARD_TO_REVERSE@)
    ||| is_vocab(p, VG_LINKS_REVERSE_TO_FORWARD@)
    ||| is_vocab(p, VG_LINKS_REVERSE_TO_REVERSE@)
}

/// Whether the predicate is one that steps of paths have.
pub open spec fn is_step_associated(p: Option<&Term>) -> bool {
    ||| is_vocab(p, VG_RANK@)
    ||| is_vocab(p, VG_POSITION@)
    ||| is_vocab(p, VG_PATH_PRED@)
    ||| is_vocab(p, VG_NODE_PRED@)
    ||| is_vocab(p, VG_REVERSE_OF_NODE@)
    ||| is_vocab(p, FALDO_BEGIN@)
    ||| is_vocab(p, FALDO_END@)
    ||| is_vocab(p, FALDO_REFERENCE@)
    ||| is_vocab(p, FALDO_POSITION_PRED@)
}

/// Whether the pattern term is the `xsd:integer` literal of this value, as
/// the term encoding compares them.
pub open spec fn encodes_int(t: Option<&Term>, v: i64) -> bool {
    t matches Some(o) && encode_term_spec(*o) == EncodedTerm::IntegerLiteral(v)
}

/// Whether the pattern term is a simple literal of this value.
pub open spec fn is_simple_literal(t: Option<&Term>, v: Seq<char>) -> bool {
    t matches Some(Term::Literal(l)) && l.value_spec() == v && l.datatype_spec() == XSD_STRING@
        && l.language_spec() is None
}

/// Whether the term is the IRI.
pub open spec fn is_iri(t: Option<&Term>, iri: Seq<char>) -> bool {
    is_vocab(t, iri)
}

fn is_vocab_exec(t: Option<&Term>, vocab: &str) -> (r: bool)
    ensures
        r == is_vocab(t, vocab@),
{
    match t {
        Some(Term::NamedNode(n)) => str_eq(n.iri.as_str(), vocab),
        _ => false,
    }
}

fn is_node_related_exec(p: Option<&Term>) -> (r: bool)
    ensures
        r == is_node_related(p),
{
    if p.is_none() {
        return false;
    }
    is_vocab_exec(p, VG_LINKS) || is_vocab_exec(p, VG_LINKS_FORWARD_TO_FORWARD)
        || is_vocab_exec(p, VG_LINKS_FORWARD_TO_REVERSE) || is_vocab_exec(
        p,
        VG_LINKS_REVERSE_TO_FORWARD,
    ) || is_vocab_exec(p, VG_LINKS_REVERSE_TO_REVERSE)
}

fn is_step_associated_exec(p: Option<&Term>) -> (r: bool)
    ensures
        r == is_step_associated(p),
{
    if p.is_none() {
        return false;
    }
    is_vocab_exec(p, VG_RANK) || is_vocab_exec(p, VG_POSITION) || is_vocab_exec(p, VG_PATH_PRED)
        || is_vocab_exec(p, VG_NODE_PRED) || is_vocab_exec(p, VG_REVERSE_OF_NODE)
        || is_vocab_exec(p, FALDO_BEGIN) || is_vocab_exec(p, FALDO_END) || is_vocab_exec(
        p,
        FALDO_REFERENCE,
    ) || is_vocab_exec(p, FALDO_POSITION_PRED)
}

fn encodes_int_exec(t: Option<&Term>, v: i64) -> (r: bool)
    ensures
        r == encodes_int(t, v),
{
    match t {
        Some(o) => {
            let e = TermEncoder::new().encode_term(o);
            match e {
                EncodedTerm::IntegerLiteral(w) => w == v,
                _ => false,
            }
        },
        None => false,
    }
}

fn is_simple_literal_exec(t: Option<&Term>, v: &str) -> (r: bool)
    ensures
        r == is_simple_literal(t, v@),
{
    match t {
        Some(Term::Literal(l)) => str_eq(l.value(), v) && str_eq(l.datatype(), XSD_STRING)
            && l.language().is_none(),
        _ => false,
    }
}

/// The id of the node that a term names: the last segment of an IRI read as
/// a `u64`, where the segment before it is `node`.
pub fn get_node_id(term: &Term) -> (r: Option<u64>)
    ensures
        r == node_id_of(*term),
{
    match term {
        Term::NamedNode(n) => {
            let chars = crate::utils::chars_of(n.iri.as_str());
            let parts = split_slash_chars(&chars);
            proof {
                lemma_split_slash_len(chars@);
            }
            let k = parts.len();
            assert(views(parts@)[k - 1] == parts@[k - 1]@);
            proof {
                reveal_strlit("node");
                assert("node"@ =~= seq!['n', 'o', 'd', 'e']);
            }
            if k >= 2 && chars_are(&parts[k - 2], "node") {
                assert(views(parts@)[k - 2] == parts@[k - 2]@);
                proof {
                    reveal_strlit("node");
                }
                parse_u64(&parts[k - 1])
            } else {
                proof {
                    reveal_strlit("node");
                    if k >= 2 {
                        assert(views(parts@)[k - 2] == parts@[k - 2]@);
                    }
                }
                None
            }
        },
        _ => None,
    }
}

/// The step fields of a step IRI: the path's name, and its rank (after
/// `step`) or position (after `position`).
pub fn get_step_iri_fields(term: Option<&Term>) -> (r: Option<StepType>)
    ensures
        r matches None ==> step_fields_of(term) is None,
        r matches Some(StepType::Rank(name, v)) ==> step_fields_of(term) == Some((name@, true, v)),
        r matches Some(StepType::Position(name, v)) ==> step_fields_of(term) == Some(
            (name@, false, v),
        ),
{
    let n = match term {
        Some(Term::NamedNode(n)) => n,
        _ => {
            return None;
        },
    };
    let chars = crate::utils::chars_of(n.iri.as_str());
    let parts = split_slash_chars(&chars);
    let k = parts.len();
    proof {
        reveal_strlit("path");
        reveal_strlit("step");
        reveal_strlit("position");
        assert("path"@ =~= seq!['p', 'a', 't', 'h']);
        assert("step"@ =~= seq!['s', 't', 'e', 'p']);
        assert("position"@ =~= seq!['p', 'o', 's', 'i', 't', 'i', 'o', 'n']);
    }
    if k < 5 {
        return None;
    }
    assert(views(parts@)[k - 4] == parts@[k - 4]@);
    assert(views(parts@)[k - 3] == parts@[k - 3]@);
    assert(views(parts@)[k - 2] == parts@[k - 2]@);
    assert(views(parts@)[k - 1] == parts@[k - 1]@);
    if !chars_are(&parts[k - 4], "path") {
        return None;
    }
    let is_rank = chars_are(&parts[k - 2], "step");
    if !is_rank && !chars_are(&parts[k - 2], "position") {
        return None;
    }
    let number = parse_u64(&parts[k - 1]);
    match number {
        None => None,
        Some(v) => {
            let name = string_of(&parts[k - 3]);
            if is_rank {
                Some(StepType::Rank(name, v))
            } else {
                Some(StepType::Position(name, v))
            }
        },
    }
}

// ---------------------------------------------------------------------------
// Storage

/// The base of the IRIs of the view.
pub const BASE_IRI: &'static str = "https://example.org";

/// Low level storage: a variation graph, and the base of the IRIs that the
/// view gives its nodes, paths and steps.
pub struct Storage {
    graph: VariationGraph,
    base: String,
}

impl Storage {
    pub closed spec fn graph_view(&self) -> GraphView {
        self.graph@
    }

    pub closed spec fn base_view(&self) -> Seq<char> {
        self.base@
    }

    /// A storage of the empty graph.
    pub fn new() -> (r: Self)
        ensures
            r.graph_view().nodes.len() == 0,
            r.graph_view().paths.len() == 0,
            r.base_view() == BASE_IRI@,
    {
        Storage { graph: VariationGraph::new(), base: String::from_str(BASE_IRI) }
    }

    /// A storage of the given graph.
    pub fn from_graph(graph: VariationGraph) -> (r: Self)
        ensures
            r.graph_view() == graph@,
            r.base_view() == BASE_IRI@,
    {
        Storage { graph, base: String::from_str(BASE_IRI) }
    }

    pub fn flush(&self) -> (r: Result<(), crate::error::StorageError>)
        ensures
            r is Ok,
    {
        Ok(())
    }

    pub fn compact(&self) -> (r: Result<(), crate::error::StorageError>)
        ensures
            r is Ok,
    {
        Ok(())
    }

    /// A reader over a copy of this storage.
    pub fn snapshot(&self) -> (r: StorageReader)
        ensures
            r.graph_view() == self.graph_view(),
            r.base_view() == self.base_view(),
    {
        StorageReader { generator: StorageGenerator::new(self.clone()) }
    }
}

impl Clone for Storage {
    /// A storage of the same graph, with the same base.
    fn clone(&self) -> (r: Self)
        ensures
            r.graph_view() == self.graph_view(),
            r.base_view() == self.base_view(),
    {
        Storage { graph: self.graph.clone(), base: self.base.clone() }
    }
}

/// Generates the quads of the RDF view of a variation graph.
pub struct StorageGenerator {
    storage: Storage,
}

fn node_iri_string(base: &String, id: u64) -> (r: String)
    ensures
        r@ == node_iri(base@, id),
{
    let mut s = base.clone();
    s.append("/node/");
    push_decimal(&mut s, id);
    proof {
        reveal_strlit("/node/");
        assert("/node/"@ =~= node_segment());
    }
    s
}

fn path_iri_string(base: &String, name: &str) -> (r: String)
    ensures
        r@ == path_iri(base@, name@),
{
    let mut s = base.clone();
    s.append("/path/");
    s.append(name);
    proof {
        reveal_strlit("/path/");
        assert("/path/"@ =~= path_segment());
    }
    s
}

fn step_iri_string(base: &String, name: &str, rank: u64) -> (r: String)
    ensures
        r@ == step_iri(base@, name@, rank),
{
    let mut s = path_iri_string(base, name);
    s.append("/step/");
    push_decimal(&mut s, rank);
    proof {
        reveal_strlit("/step/");
        assert("/step/"@ =~= step_segment());
    }
    s
}

fn position_iri_string(base: &String, name: &str, position: u64) -> (r: String)
    ensures
        r@ == position_iri(base@, name@, position),
{
    let mut s = path_iri_string(base, name);
    s.append("/position/");
    push_decimal(&mut s, position);
    proof {
        reveal_strlit("/position/");
        assert("/position/"@ =~= position_segment());
    }
    s
}

fn iri_term(iri: String) -> (r: Term)
    ensures
        r matches Term::NamedNode(n) && n.iri@ == iri@,
{
    Term::NamedNode(NamedNode { iri })
}

fn vocab_term(iri: &str) -> (r: Term)
    ensures
        r matches Term::NamedNode(n) && n.iri@ == iri@,
{
    Term::NamedNode(NamedNode { iri: String::from_str(iri) })
}

fn vocab_node(iri: &str) -> (r: NamedNode)
    ensures
        r.iri@ == iri@,
{
    NamedNode { iri: String::from_str(iri) }
}

fn integer_term(v: i64) -> (r: Term)
    ensures
        object_is(r, ObjectView::Int(v)),
{
    Term::Literal(Literal::Typed { value: i64_lexical(v), datatype: vocab_node(XSD_INTEGER) })
}

/// The quad of a generated triple in a graph.
fn make_quad(
    subject: Term,
    predicate: &str,
    object: Term,
    graph_name: &GraphName,
    Ghost(t): Ghost<TripleView>,
) -> (r: Quad)
    requires
        subject matches Term::NamedNode(n) && n.iri@ == t.subject,
        predicate@ == t.predicate,
        object_is(object, t.object),
    ensures
        quad_is(r, t, *graph_name),
{
    Quad { subject, predicate: vocab_node(predicate), object, graph_name: graph_name.duplicate() }
}

proof fn lemma_opt(ts: Seq<TripleView>, c: bool, t: TripleView)
    ensures
        c ==> ts + opt(c, t) == ts.push(t),
        !c ==> ts + opt(c, t) == ts,
{
    if c {
        assert(ts + opt(c, t) =~= ts.push(t));
    } else {
        assert(ts + opt(c, t) =~= ts);
    }
}

/// Appends the quad of a generated triple.
fn push_triple(
    results: &mut Vec<Quad>,
    subject: Term,
    predicate: &str,
    object: Term,
    graph_name: &GraphName,
    Ghost(ts): Ghost<Seq<TripleView>>,
    Ghost(t): Ghost<TripleView>,
)
    requires
        quads_are(old(results)@, ts, *graph_name),
        subject matches Term::NamedNode(n) && n.iri@ == t.subject,
        predicate@ == t.predicate,
        object_is(object, t.object),
    ensures
        quads_are(final(results)@, ts + opt(true, t), *graph_name),
{
    let q = make_quad(subject, predicate, object, graph_name, Ghost(t));
    proof {
        lemma_quads_are_push(results@, ts, q, t, *graph_name);
        lemma_opt(ts, true, t);
    }
    results.push(q);
}

// ---------------------------------------------------------------------------
// Nodes and links

/// The node id of a pattern term.
pub open spec fn object_node_id(o: Option<&Term>) -> Option<u64> {
    match o {
        Some(t) => node_id_of(*t),
        None => None,
    }
}

/// The sequence of a node as a literal, or its type: what `rdf:value` and
/// `rdf:type` give of a node.
pub open spec fn handle_triples(
    gv: GraphView,
    s: Seq<char>,
    id: u64,
    p: Option<&Term>,
    o: Option<&Term>,
) -> Seq<TripleView> {
    if is_vocab(p, RDF_VALUE@) || p is None {
        opt(
            o is None || is_simple_literal(o, gv.node_seq(id)),
            tv(s, RDF_VALUE@, ObjectView::Str(gv.node_seq(id))),
        )
    } else if (is_vocab(p, RDF_TYPE@) || p is None) && (o is None || is_vocab(o, VG_NODE@)) {
        seq![tv(s, RDF_TYPE@, ObjectView::Iri(VG_NODE@))]
    } else {
        Seq::empty()
    }
}

/// The link triples from one handle to another: one for the orientations
/// of the two sides, and `vg:links`.
pub open spec fn edge_triples_of(
    b: Seq<char>,
    h: Handle,
    nb: Handle,
    p: Option<&Term>,
) -> Seq<TripleView> {
    let si = node_iri(b, h.id);
    let oi = node_iri(b, nb.id);
    opt(
        (p is None || is_vocab(p, VG_LINKS_FORWARD_TO_FORWARD@)) && !h.is_reverse
            && !nb.is_reverse,
        tv(si, VG_LINKS_FORWARD_TO_FORWARD@, ObjectView::Iri(oi)),
    ) + opt(
        (p is None || is_vocab(p, VG_LINKS_FORWARD_TO_REVERSE@)) && !h.is_reverse
            && nb.is_reverse,
        tv(si, VG_LINKS_FORWARD_TO_REVERSE@, ObjectView::Iri(oi)),
    ) + opt(
        (p is None || is_vocab(p, VG_LINKS_REVERSE_TO_FORWARD@)) && h.is_reverse
            && !nb.is_reverse,
        tv(si, VG_LINKS_REVERSE_TO_FORWARD@, ObjectView::Iri(oi)),
    ) + opt(
        (p is None || is_vocab(p, VG_LINKS_REVERSE_TO_REVERSE@)) && h.is_reverse
            && nb.is_reverse,
        tv(si, VG_LINKS_REVERSE_TO_REVERSE@, ObjectView::Iri(oi)),
    ) + opt(p is None || is_vocab(p, VG_LINKS@), tv(si, VG_LINKS@, ObjectView::Iri(oi)))
}

/// The link triples of the first `k` right-hand neighbours of a node, for
/// those that the object names.
pub open spec fn neighbor_triples(
    gv: GraphView,
    b: Seq<char>,
    id: u64,
    p: Option<&Term>,
    o: Option<&Term>,
    k: int,
) -> Seq<TripleView>
    decreases k,
{
    if k <= 0 {
        Seq::empty()
    } else {
        let nb = gv.right_neighbors(id)[k - 1];
        neighbor_triples(gv, b, id, p, o, k - 1) + if o is None || object_node_id(o) == Some(
            nb.id,
        ) {
            edge_triples_of(b, Handle { id, is_reverse: false }, nb, p)
        } else {
            Seq::empty()
        }
    }
}

/// The link triples of a node, where the predicate asks for links.
pub open spec fn handle_edge_triples(
    gv: GraphView,
    b: Seq<char>,
    id: u64,
    p: Option<&Term>,
    o: Option<&Term>,
) -> Seq<TripleView> {
    if p is None || is_node_related(p) {
        neighbor_triples(gv, b, id, p, o, gv.right_neighbors(id).len() as int)
    } else {
        Seq::empty()
    }
}

/// Where reading the links of a node completes: an object that names no
/// node can only be compared with no neighbour at all.
pub open spec fn edges_defined(gv: GraphView, id: u64, p: Option<&Term>, o: Option<&Term>) -> bool {
    (p is None || is_node_related(p)) && o is Some && object_node_id(o) is None
        ==> gv.right_neighbors(id).len() == 0
}

/// The triples of the node that the IRI `s` names, if it names one of the
/// graph: its type, its sequence and its links. The type is given once: for
/// `rdf:type`, by the sequence-or-type triples alone.
pub open spec fn node_triples(
    gv: GraphView,
    b: Seq<char>,
    s: Seq<char>,
    p: Option<&Term>,
    o: Option<&Term>,
) -> Seq<TripleView> {
    let nid = node_id_of_iri(s);
    let is_node = nid is Some && gv.has_node(nid->0);
    opt(is_node && p is None, tv(s, RDF_TYPE@, ObjectView::Iri(VG_NODE@))) + if is_node {
        handle_triples(gv, s, nid->0, p, o) + handle_edge_triples(gv, b, nid->0, p, o)
    } else {
        Seq::empty()
    }
}

pub open spec fn node_defined(gv: GraphView, s: Seq<char>, p: Option<&Term>, o: Option<&Term>) -> bool {
    let nid = node_id_of_iri(s);
    nid is Some && gv.has_node(nid->0) ==> edges_defined(gv, nid->0, p, o)
}

/// The triples of the first `k` nodes of the graph, each by its IRI.
pub open spec fn all_node_triples(
    gv: GraphView,
    b: Seq<char>,
    p: Option<&Term>,
    o: Option<&Term>,
    k: int,
) -> Seq<TripleView>
    decreases k,
{
    if k <= 0 {
        Seq::empty()
    } else {
        all_node_triples(gv, b, p, o, k - 1) + node_triples(
            gv,
            b,
            node_iri(b, gv.nodes[k - 1].id),
            p,
            o,
        )
    }
}

/// The node triples for a subject: those of the node it names, or of every
/// node where there is no subject.
pub open spec fn nodes_spec(
    gv: GraphView,
    b: Seq<char>,
    subject: Option<&Term>,
    p: Option<&Term>,
    o: Option<&Term>,
) -> Seq<TripleView> {
    match subject {
        Some(Term::NamedNode(n)) => node_triples(gv, b, n.iri@, p, o),
        Some(_) => Seq::empty(),
        None => all_node_triples(gv, b, p, o, gv.nodes.len() as int),
    }
}

/// Where reading the node triples completes: the subject is an IRI or
/// none, and the links are read only where they can be.
pub open spec fn nodes_defined(
    gv: GraphView,
    b: Seq<char>,
    subject: Option<&Term>,
    p: Option<&Term>,
    o: Option<&Term>,
) -> bool {
    match subject {
        Some(Term::NamedNode(n)) => node_defined(gv, n.iri@, p, o),
        Some(_) => false,
        None => forall|i: int|
            0 <= i < gv.nodes.len() ==> node_defined(gv, node_iri(b, #[trigger] gv.nodes[i].id), p, o),
    }
}

impl StorageGenerator {
    pub closed spec fn graph_view(&self) -> GraphView {
        self.storage.graph@
    }

    pub closed spec fn base_view(&self) -> Seq<char> {
        self.storage.base@
    }

    pub fn new(storage: Storage) -> (r: Self)
        ensures
            r.graph_view() == storage.graph_view(),
            r.base_view() == storage.base_view(),
    {
        StorageGenerator { storage }
    }

    /// The IRI of a handle's node: `{base}/node/{id}`.
    pub fn handle_to_namednode(&self, handle: Handle) -> (r: Term)
        ensures
            r matches Term::NamedNode(n) && n.iri@ == node_iri(self.base_view(), handle.id),
    {
        iri_term(node_iri_string(&self.storage.base, handle.id))
    }

    /// Whether the term names a node of the graph.
    pub fn is_node_iri_in_graph(&self, term: &Term) -> (r: bool)
        ensures
            r == (node_id_of(*term) matches Some(id) && self.graph_view().has_node(id)),
    {
        match get_node_id(term) {
            Some(id) => self.storage.graph.find_node(id).is_some(),
            None => false,
        }
    }

    /// The sequence of the node that the subject names, as a simple literal
    /// under `rdf:value`; or else, for `rdf:type`, its type `vg:Node`.
    pub fn handle_to_triples(
        &self,
        subject: &Term,
        predicate: Option<&Term>,
        object: Option<&Term>,
        graph_name: &GraphName,
    ) -> (r: Vec<Quad>)
        requires
            node_id_of(*subject) matches Some(id) && self.graph_view().has_node(id),
        ensures
            quads_are(
                r@,
                handle_triples(
                    self.graph_view(),
                    node_iri_of(*subject),
                    node_id_of(*subject)->0,
                    predicate,
                    object,
                ),
                *graph_name,
            ),
    {
        let mut results: Vec<Quad> = Vec::new();
        let ghost s = node_iri_of(*subject);
        if is_vocab_exec(predicate, RDF_VALUE) || predicate.is_none() {
            let id = get_node_id(subject).unwrap();
            let i = self.storage.graph.find_node(id).unwrap();
            let seq = self.storage.graph.sequence_at(i);
            if object.is_none() || is_simple_literal_exec(object, seq.as_str()) {
                push_triple(
                    &mut results,
                    subject.duplicate(),
                    RDF_VALUE,
                    Term::Literal(Literal::Simple(seq.clone())),
                    graph_name,
                    Ghost(Seq::empty()),
                    Ghost(tv(s, RDF_VALUE@, ObjectView::Str(seq@))),
                );
                assert(Seq::<TripleView>::empty() + opt(true, tv(s, RDF_VALUE@, ObjectView::Str(seq@))) =~= opt(true, tv(s, RDF_VALUE@, ObjectView::Str(seq@))));
            }
        } else if (is_vocab_exec(predicate, RDF_TYPE) || predicate.is_none()) && (object.is_none()
            || is_vocab_exec(object, VG_NODE)) {
            push_triple(
                &mut results,
                subject.duplicate(),
                RDF_TYPE,
                vocab_term(VG_NODE),
                graph_name,
                Ghost(Seq::empty()),
                Ghost(tv(s, RDF_TYPE@, ObjectView::Iri(VG_NODE@))),
            );
            assert(Seq::<TripleView>::empty() + opt(true, tv(s, RDF_TYPE@, ObjectView::Iri(VG_NODE@))) =~= seq![tv(s, RDF_TYPE@, ObjectView::Iri(VG_NODE@))]);
        }
        results
    }
}

impl StorageGenerator {
    /// The link triples from `subject` to `object`: the one of their
    /// orientations, then `vg:links`, as far as the predicate asks for them.
    pub fn generate_edge_triples(
        &self,
        subject: Handle,
        object: Handle,
        predicate: Option<&Term>,
        graph_name: &GraphName,
    ) -> (r: Vec<Quad>)
        ensures
            quads_are(
                r@,
                edge_triples_of(self.base_view(), subject, object, predicate),
                *graph_name,
            ),
    {
        let ghost b = self.base_view();
        let ghost si = node_iri(b, subject.id);
        let ghost oi = node_iri(b, object.id);
        let mut results: Vec<Quad> = Vec::new();
        let ghost mut ts: Seq<TripleView> = Seq::empty();
        let node_is_reverse = subject.is_reverse;
        let other_is_reverse = object.is_reverse;

        let c = (predicate.is_none() || is_vocab_exec(predicate, VG_LINKS_FORWARD_TO_FORWARD))
            && !node_is_reverse && !other_is_reverse;
        let ghost t = tv(si, VG_LINKS_FORWARD_TO_FORWARD@, ObjectView::Iri(oi));
        if c {
            push_triple(&mut results, self.handle_to_namednode(subject), VG_LINKS_FORWARD_TO_FORWARD,
                self.handle_to_namednode(object), graph_name, Ghost(ts), Ghost(t));
        }
        proof { lemma_opt(ts, c, t); ts = ts + opt(c, t); }

        let c = (predicate.is_none() || is_vocab_exec(predicate, VG_LINKS_FORWARD_TO_REVERSE))
            && !node_is_reverse && other_is_reverse;
        let ghost t = tv(si, VG_LINKS_FORWARD_TO_REVERSE@, ObjectView::Iri(oi));
        if c {
            push_triple(&mut results, self.handle_to_namednode(subject), VG_LINKS_FORWARD_TO_REVERSE,
                self.handle_to_namednode(object), graph_name, Ghost(ts), Ghost(t));
        }
        proof { lemma_opt(ts, c, t); ts = ts + opt(c, t); }

        let c = (predicate.is_none() || is_vocab_exec(predicate, VG_LINKS_REVERSE_TO_FORWARD))
            && node_is_reverse && !other_is_reverse;
        let ghost t = tv(si, VG_LINKS_REVERSE_TO_FORWARD@, ObjectView::Iri(oi));
        if c {
            push_triple(&mut results, self.handle_to_namednode(subject), VG_LINKS_REVERSE_TO_FORWARD,
                self.handle_to_namednode(object), graph_name, Ghost(ts), Ghost(t));
        }
        proof { lemma_opt(ts, c, t); ts = ts + opt(c, t); }

        let c = (predicate.is_none() || is_vocab_exec(predicate, VG_LINKS_REVERSE_TO_REVERSE))
            && node_is_reverse && other_is_reverse;
        let ghost t = tv(si, VG_LINKS_REVERSE_TO_REVERSE@, ObjectView::Iri(oi));
        if c {
            push_triple(&mut results, self.handle_to_namednode(subject), VG_LINKS_REVERSE_TO_REVERSE,
                self.handle_to_namednode(object), graph_name, Ghost(ts), Ghost(t));
        }
        proof { lemma_opt(ts, c, t); ts = ts + opt(c, t); }

        let c = predicate.is_none() || is_vocab_exec(predicate, VG_LINKS);
        let ghost t = tv(si, VG_LINKS@, ObjectView::Iri(oi));
        if c {
            push_triple(&mut results, self.handle_to_namednode(subject), VG_LINKS,
                self.handle_to_namednode(object), graph_name, Ghost(ts), Ghost(t));
        }
        proof { lemma_opt(ts, c, t); ts = ts + opt(c, t); }
        assert(ts =~= edge_triples_of(b, subject, object, predicate));
        results
    }

    /// The link triples of the node that the subject names, to each of its
    /// right-hand neighbours that the object names (to all of them where
    /// there is no object), where the predicate asks for links.
    pub fn handle_to_edge_triples(
        &self,
        subject: &Term,
        predicate: Option<&Term>,
        object: Option<&Term>,
        graph_name: &GraphName,
    ) -> (r: Vec<Quad>)
        requires
            node_id_of(*subject) matches Some(id) && self.graph_view().has_node(id),
            edges_defined(self.graph_view(), node_id_of(*subject)->0, predicate, object),
        ensures
            quads_are(
                r@,
                handle_edge_triples(
                    self.graph_view(),
                    self.base_view(),
                    node_id_of(*subject)->0,
                    predicate,
                    object,
                ),
                *graph_name,
            ),
    {
        let mut results: Vec<Quad> = Vec::new();
        if !(predicate.is_none() || is_node_related_exec(predicate)) {
            return results;
        }
        let ghost gv = self.graph_view();
        let ghost b = self.base_view();
        let id = get_node_id(subject).unwrap();
        let handle = Handle::forward(id);
        let i = self.storage.graph.find_node(id).unwrap();
        let neighbors = self.storage.graph.right_neighbors_at(i);
        let object_id: Option<u64> = match object {
            Some(o) => get_node_id(o),
            None => None,
        };
        let mut k: usize = 0;
        assert(quads_are(results@, neighbor_triples(gv, b, id, predicate, object, 0), *graph_name));
        while k < neighbors.len()
            invariant
                k <= neighbors@.len(),
                neighbors@ == gv.right_neighbors(id),
                gv == self.graph_view(),
                b == self.base_view(),
                object_id == object_node_id(object),
                edges_defined(gv, id, predicate, object),
                handle == (Handle { id, is_reverse: false }),
                quads_are(results@, neighbor_triples(gv, b, id, predicate, object, k as int), *graph_name),
            decreases neighbors.len() - k,
        {
            let neighbor = neighbors[k];
            let matches = match object_id {
                None => object.is_none(),
                Some(oid) => oid == neighbor.id,
            };
            if matches {
                let more = self.generate_edge_triples(handle, neighbor, predicate, graph_name);
                append_quads(&mut results, more, Ghost(neighbor_triples(gv, b, id, predicate, object, k as int)),
                    Ghost(edge_triples_of(b, handle, neighbor, predicate)), Ghost(*graph_name));
            } else {
                assert(neighbor_triples(gv, b, id, predicate, object, k as int) + Seq::empty()
                    =~= neighbor_triples(gv, b, id, predicate, object, k as int));
            }
            k = k + 1;
        }
        results
    }

    /// The node triples for a pattern: for the node that the subject names,
    /// its type, sequence and links; for every node of the graph in turn,
    /// where there is no subject.
    pub fn nodes(
        &self,
        subject: Option<&Term>,
        predicate: Option<&Term>,
        object: Option<&Term>,
        graph_name: &GraphName,
    ) -> (r: Vec<Quad>)
        requires
            nodes_defined(self.graph_view(), self.base_view(), subject, predicate, object),
        ensures
            quads_are(
                r@,
                nodes_spec(self.graph_view(), self.base_view(), subject, predicate, object),
                *graph_name,
            ),
    {
        match subject {
            Some(sub) => self.node_quads(sub, predicate, object, graph_name),
            None => {
                let ghost gv = self.graph_view();
                let ghost b = self.base_view();
                let mut results: Vec<Quad> = Vec::new();
                let n = self.storage.graph.node_count();
                let mut i: usize = 0;
                while i < n
                    invariant
                        i <= n,
                        n == gv.nodes.len(),
                        gv == self.graph_view(),
                        b == self.base_view(),
                        nodes_defined(gv, b, None, predicate, object),
                        quads_are(results@, all_node_triples(gv, b, predicate, object, i as int), *graph_name),
                    decreases n - i,
                {
                    let id = self.storage.graph.node_id_at(i);
                    let term = self.handle_to_namednode(Handle::forward(id));
                    assert(node_defined(gv, node_iri(b, gv.nodes[i as int].id), predicate, object));
                    let more = self.node_quads(&term, predicate, object, graph_name);
                    append_quads(&mut results, more, Ghost(all_node_triples(gv, b, predicate, object, i as int)),
                        Ghost(node_triples(gv, b, node_iri(b, id), predicate, object)), Ghost(*graph_name));
                    i = i + 1;
                }
                results
            },
        }
    }

    /// The triples of the node that an IRI names.
    fn node_quads(
        &self,
        sub: &Term,
        predicate: Option<&Term>,
        object: Option<&Term>,
        graph_name: &GraphName,
    ) -> (r: Vec<Quad>)
        requires
            sub is NamedNode,
            node_defined(self.graph_view(), node_iri_of(*sub), predicate, object),
        ensures
            quads_are(
                r@,
                node_triples(self.graph_view(), self.base_view(), node_iri_of(*sub), predicate, object),
                *graph_name,
            ),
    {
        let ghost gv = self.graph_view();
        let ghost b = self.base_view();
        let ghost s = node_iri_of(*sub);
        let mut results: Vec<Quad> = Vec::new();
        let is_node_iri = self.is_node_iri_in_graph(sub);
        let c = is_node_iri && predicate.is_none();
        let ghost t = tv(s, RDF_TYPE@, ObjectView::Iri(VG_NODE@));
        if c {
            push_triple(&mut results, sub.duplicate(), RDF_TYPE, vocab_term(VG_NODE), graph_name,
                Ghost(Seq::empty()), Ghost(t));
        }
        proof {
            lemma_opt(Seq::empty(), c, t);
            assert(Seq::<TripleView>::empty() + opt(c, t) =~= opt(c, t));
        }
        if is_node_iri {
            let ghost id = node_id_of(*sub)->0;
            let triples = self.handle_to_triples(sub, predicate, object, graph_name);
            append_quads(&mut results, triples, Ghost(opt(c, t)),
                Ghost(handle_triples(gv, s, id, predicate, object)), Ghost(*graph_name));
            let edge_triples = self.handle_to_edge_triples(sub, predicate, object, graph_name);
            append_quads(&mut results, edge_triples,
                Ghost(opt(c, t) + handle_triples(gv, s, id, predicate, object)),
                Ghost(handle_edge_triples(gv, b, id, predicate, object)), Ghost(*graph_name));
            assert(opt(c, t) + handle_triples(gv, s, id, predicate, object) + handle_edge_triples(gv, b, id, predicate, object)
                =~= opt(c, t) + (handle_triples(gv, s, id, predicate, object) + handle_edge_triples(gv, b, id, predicate, object)));
        } else {
            assert(opt(c, t) + Seq::<TripleView>::empty() =~= opt(c, t));
        }
        results
    }
}

// ---------------------------------------------------------------------------
// Steps of paths

/// The triples of a FALDO position: its value, its two types and its
/// reference path, as far as the pattern asks for them.
pub open spec fn faldo_triples(
    position: u64,
    path: Seq<char>,
    subj: Seq<char>,
    p: Option<&Term>,
    o: Option<&Term>,
) -> Seq<TripleView> {
    let v = position as i64;
    opt(
        (p is None || is_vocab(p, FALDO_POSITION_PRED@)) && (o is None || encodes_int(o, v)),
        tv(subj, FALDO_POSITION_PRED@, ObjectView::Int(v)),
    ) + opt(
        (p is None || is_vocab(p, RDF_TYPE@)) && (o is None || is_vocab(o, FALDO_EXACT_POSITION@)),
        tv(subj, RDF_TYPE@, ObjectView::Iri(FALDO_EXACT_POSITION@)),
    ) + opt(
        (p is None || is_vocab(p, RDF_TYPE@)) && (o is None || is_vocab(o, FALDO_POSITION@)),
        tv(subj, RDF_TYPE@, ObjectView::Iri(FALDO_POSITION@)),
    ) + opt(
        p is None || (is_vocab(p, FALDO_REFERENCE@) && (o is None || is_iri(o, path))),
        tv(subj, FALDO_REFERENCE@, ObjectView::Iri(path)),
    )
}

/// The type, node and orientation triples of a step.
pub open spec fn step_head_triples(
    b: Seq<char>,
    step: Seq<char>,
    p: Option<&Term>,
    o: Option<&Term>,
    node: Handle,
) -> Seq<TripleView> {
    let niri = node_iri(b, node.id);
    (if is_vocab(p, RDF_TYPE@) || p is None {
        opt(o is None || is_vocab(o, VG_STEP@), tv(step, RDF_TYPE@, ObjectView::Iri(VG_STEP@)))
            + opt(
            o is None || is_vocab(o, FALDO_REGION@),
            tv(step, RDF_TYPE@, ObjectView::Iri(FALDO_REGION@)),
        )
    } else {
        Seq::empty()
    }) + opt(
        (is_vocab(p, VG_NODE_PRED@) || (p is None && !node.is_reverse)) && (o is None || is_iri(
            o,
            niri,
        )),
        tv(step, VG_NODE_PRED@, ObjectView::Iri(niri)),
    ) + opt(
        (is_vocab(p, VG_REVERSE_OF_NODE@) || (p is None && node.is_reverse)) && (o is None
            || is_iri(o, niri)),
        tv(step, VG_REVERSE_OF_NODE@, ObjectView::Iri(niri)),
    )
}

/// The rank, position and path triples of a step; its position is written
/// under `vg:rank`, as its rank is.
pub open spec fn step_number_triples(
    step: Seq<char>,
    path: Seq<char>,
    p: Option<&Term>,
    o: Option<&Term>,
    rank: u64,
    position: u64,
) -> Seq<TripleView> {
    let r = rank as i64;
    let q = position as i64;
    opt(
        (is_vocab(p, VG_RANK@) || p is None) && (o is None || encodes_int(o, r)),
        tv(step, VG_RANK@, ObjectView::Int(r)),
    ) + opt(
        (is_vocab(p, VG_POSITION@) || p is None) && (o is None || encodes_int(o, q)),
        tv(step, VG_RANK@, ObjectView::Int(q)),
    ) + opt(
        (is_vocab(p, VG_PATH_PRED@) || p is None) && (o is None || is_iri(o, path)),
        tv(step, VG_PATH_PRED@, ObjectView::Iri(path)),
    )
}

/// The FALDO border triples of a step, and, where there is no subject, the
/// triples of the two borders.
pub open spec fn step_border_triples(
    b: Seq<char>,
    name: Seq<char>,
    step: Seq<char>,
    subject: Option<&Term>,
    p: Option<&Term>,
    o: Option<&Term>,
    position: u64,
    end: u64,
) -> Seq<TripleView> {
    let path = path_iri(b, name);
    opt(
        p is None || is_vocab(p, FALDO_BEGIN@),
        tv(step, FALDO_BEGIN@, ObjectView::Iri(position_iri(b, name, position))),
    ) + opt(
        p is None || is_vocab(p, FALDO_END@),
        tv(step, FALDO_END@, ObjectView::Iri(position_iri(b, name, end))),
    ) + if subject is None {
        faldo_triples(position, path, position_iri(b, name, position), p, o) + faldo_triples(
            end,
            path,
            position_iri(b, name, end),
            p,
            o,
        )
    } else {
        Seq::empty()
    }
}

/// The triples of the step of rank `rank` on the path `name`, on the handle
/// `node`, beginning at `position`, where the subject is none or the step.
pub open spec fn step_triples(
    gv: GraphView,
    b: Seq<char>,
    name: Seq<char>,
    subject: Option<&Term>,
    p: Option<&Term>,
    o: Option<&Term>,
    node: Handle,
    rank: u64,
    position: u64,
) -> Seq<TripleView> {
    let step = step_iri(b, name, rank);
    let end = (position + gv.node_len(node.id)) as u64;
    if subject is None || is_iri(subject, step) {
        step_head_triples(b, step, p, o, node) + step_number_triples(
            step,
            path_iri(b, name),
            p,
            o,
            rank,
            position,
        ) + step_border_triples(b, name, step, subject, p, o, position, end)
    } else {
        Seq::empty()
    }
}

/// Whether every `faldo:reference` triple of the list names `path` as its
/// object.
pub open spec fn references_to(ts: Seq<TripleView>, path: Seq<char>) -> bool {
    forall|i: int| 0 <= i < ts.len() && (#[trigger] ts[i]).predicate == FALDO_REFERENCE@ ==> ts[i].object
        == ObjectView::Iri(path)
}

proof fn lemma_references_concat(a: Seq<TripleView>, c: Seq<TripleView>, path: Seq<char>)
    requires
        references_to(a, path),
        references_to(c, path),
    ensures
        references_to(a + c, path),
{
    assert forall|i: int| 0 <= i < (a + c).len() && (#[trigger] (a + c)[i]).predicate == FALDO_REFERENCE@ implies (a
        + c)[i].object == ObjectView::Iri(path) by {
        if i < a.len() {
            assert((a + c)[i] == a[i]);
        } else {
            assert((a + c)[i] == c[i - a.len()]);
        }
    }
}

proof fn lemma_opt_other_predicate(cnd: bool, t: TripleView, path: Seq<char>)
    requires
        t.predicate != FALDO_REFERENCE@ || t.object == ObjectView::Iri(path),
    ensures
        references_to(opt(cnd, t), path),
{
}

proof fn lemma_vocab_not_reference()
    ensures
        RDF_TYPE@ != FALDO_REFERENCE@,
        VG_NODE_PRED@ != FALDO_REFERENCE@,
        VG_REVERSE_OF_NODE@ != FALDO_REFERENCE@,
        VG_RANK@ != FALDO_REFERENCE@,
        VG_PATH_PRED@ != FALDO_REFERENCE@,
        FALDO_BEGIN@ != FALDO_REFERENCE@,
        FALDO_END@ != FALDO_REFERENCE@,
        FALDO_POSITION_PRED@ != FALDO_REFERENCE@,
{
    reveal_strlit("http://biohackathon.org/resource/faldo#reference");
    reveal_strlit("http://www.w3.org/1999/02/22-rdf-syntax-ns#type");
    reveal_strlit("http://biohackathon.org/resource/vg#node");
    reveal_strlit("http://biohackathon.org/resource/vg#reverseOfNode");
    reveal_strlit("http://biohackathon.org/resource/vg#rank");
    reveal_strlit("http://biohackathon.org/resource/vg#path");
    reveal_strlit("http://biohackathon.org/resource/faldo#begin");
    reveal_strlit("http://biohackathon.org/resource/faldo#end");
    reveal_strlit("http://biohackathon.org/resource/faldo#position");
    assert(RDF_TYPE@.len() != FALDO_REFERENCE@.len());
    assert(VG_NODE_PRED@.len() != FALDO_REFERENCE@.len());
    assert(VG_REVERSE_OF_NODE@.len() != FALDO_REFERENCE@.len());
    assert(VG_RANK@.len() != FALDO_REFERENCE@.len());
    assert(VG_PATH_PRED@.len() != FALDO_REFERENCE@.len());
    assert(FALDO_BEGIN@.len() != FALDO_REFERENCE@.len());
    assert(FALDO_END@.len() != FALDO_REFERENCE@.len());
    assert(FALDO_POSITION_PRED@.len() != FALDO_REFERENCE@.len());
}

/// The FALDO positions of a step reference the step's own path: every
/// `faldo:reference` triple that the step gives has the IRI of the path
/// as its object, whatever the pattern.
pub proof fn law_step_positions_reference_path(
    gv: GraphView,
    b: Seq<char>,
    name: Seq<char>,
    subject: Option<&Term>,
    p: Option<&Term>,
    o: Option<&Term>,
    node: Handle,
    rank: u64,
    position: u64,
)
    ensures
        references_to(step_triples(gv, b, name, subject, p, o, node, rank, position), path_iri(b, name)),
{
    lemma_vocab_not_reference();
    let path = path_iri(b, name);
    let step = step_iri(b, name, rank);
    let end = (position + gv.node_len(node.id)) as u64;
    let niri = node_iri(b, node.id);
    let e = Seq::<TripleView>::empty();
    assert(references_to(e, path));
    let hd1 = opt(o is None || is_vocab(o, VG_STEP@), tv(step, RDF_TYPE@, ObjectView::Iri(VG_STEP@)));
    let hd2 = opt(o is None || is_vocab(o, FALDO_REGION@), tv(step, RDF_TYPE@, ObjectView::Iri(FALDO_REGION@)));
    lemma_references_concat(hd1, hd2, path);
    let hd3 = opt(
        (is_vocab(p, VG_NODE_PRED@) || (p is None && !node.is_reverse)) && (o is None || is_iri(o, niri)),
        tv(step, VG_NODE_PRED@, ObjectView::Iri(niri)),
    );
    let hd4 = opt(
        (is_vocab(p, VG_REVERSE_OF_NODE@) || (p is None && node.is_reverse)) && (o is None || is_iri(o, niri)),
        tv(step, VG_REVERSE_OF_NODE@, ObjectView::Iri(niri)),
    );
    let hd0 = if is_vocab(p, RDF_TYPE@) || p is None { hd1 + hd2 } else { e };
    lemma_references_concat(hd0, hd3, path);
    lemma_references_concat(hd0 + hd3, hd4, path);
    let head = step_head_triples(b, step, p, o, node);
    assert(head == hd0 + hd3 + hd4);
    let r = rank as i64;
    let q = position as i64;
    let n1 = opt((is_vocab(p, VG_RANK@) || p is None) && (o is None || encodes_int(o, r)), tv(step, VG_RANK@, ObjectView::Int(r)));
    let n2 = opt((is_vocab(p, VG_POSITION@) || p is None) && (o is None || encodes_int(o, q)), tv(step, VG_RANK@, ObjectView::Int(q)));
    let n3 = opt((is_vocab(p, VG_PATH_PRED@) || p is None) && (o is None || is_iri(o, path)), tv(step, VG_PATH_PRED@, ObjectView::Iri(path)));
    lemma_references_concat(n1, n2, path);
    lemma_references_concat(n1 + n2, n3, path);
    assert(step_number_triples(step, path, p, o, rank, position) == n1 + n2 + n3);
    let b1 = opt(p is None || is_vocab(p, FALDO_BEGIN@), tv(step, FALDO_BEGIN@, ObjectView::Iri(position_iri(b, name, position))));
    let b2 = opt(p is None || is_vocab(p, FALDO_END@), tv(step, FALDO_END@, ObjectView::Iri(position_iri(b, name, end))));
    lemma_references_concat(b1, b2, path);
    lemma_faldo_references(position, path, position_iri(b, name, position), p, o);
    lemma_faldo_references(end, path, position_iri(b, name, end), p, o);
    let f1 = faldo_triples(position, path, position_iri(b, name, position), p, o);
    let f2 = faldo_triples(end, path, position_iri(b, name, end), p, o);
    lemma_references_concat(f1, f2, path);
    let fs = if subject is None { f1 + f2 } else { e };
    lemma_references_concat(b1 + b2, fs, path);
    assert(step_border_triples(b, name, step, subject, p, o, position, end) == b1 + b2 + fs);
    lemma_references_concat(head, n1 + n2 + n3, path);
    lemma_references_concat(head + (n1 + n2 + n3), b1 + b2 + fs, path);
}

/// Each step has FALDO positions that reference its path: asked for every
/// triple, a step gives its `faldo:begin` position and its `faldo:end`
/// position, the length of its node further; each of the two
/// positions has the number in its IRI as its `faldo:position` and the IRI
/// of the step's path as its `faldo:reference`.
pub proof fn law_step_positions_referenced(gv: GraphView, b: Seq<char>, name: Seq<char>, node: Handle, rank: u64, position: u64)
    ensures
        ({
            let ts = step_triples(gv, b, name, None, None, None, node, rank, position);
            let path = path_iri(b, name);
            let step = step_iri(b, name, rank);
            let first = position_iri(b, name, position);
            let last = position_iri(b, name, (position + gv.node_len(node.id)) as u64);
            &&& ts.contains(tv(step, FALDO_BEGIN@, ObjectView::Iri(first)))
            &&& ts.contains(tv(first, FALDO_REFERENCE@, ObjectView::Iri(path)))
            &&& ts.contains(tv(first, FALDO_POSITION_PRED@, ObjectView::Int(position as i64)))
            &&& ts.contains(tv(step, FALDO_END@, ObjectView::Iri(last)))
            &&& ts.contains(tv(last, FALDO_REFERENCE@, ObjectView::Iri(path)))
            &&& ts.contains(
                tv(last, FALDO_POSITION_PRED@, ObjectView::Int((position + gv.node_len(node.id)) as u64 as i64)),
            )
        }),
{
    let none: Option<&Term> = None;
    let path = path_iri(b, name);
    let step = step_iri(b, name, rank);
    let end = (position + gv.node_len(node.id)) as u64;
    let first = position_iri(b, name, position);
    let last = position_iri(b, name, end);
    let ts = step_triples(gv, b, name, none, none, none, node, rank, position);
    let head = step_head_triples(b, step, none, none, node);
    let nums = step_number_triples(step, path, none, none, rank, position);
    let f1 = faldo_triples(position, path, first, none, none);
    let f2 = faldo_triples(end, path, last, none, none);
    let bt = tv(step, FALDO_BEGIN@, ObjectView::Iri(first));
    let et = tv(step, FALDO_END@, ObjectView::Iri(last));
    let r1 = tv(first, FALDO_REFERENCE@, ObjectView::Iri(path));
    let r2 = tv(last, FALDO_REFERENCE@, ObjectView::Iri(path));
    let v1 = tv(first, FALDO_POSITION_PRED@, ObjectView::Int(position as i64));
    let v2 = tv(last, FALDO_POSITION_PRED@, ObjectView::Int(end as i64));
    assert(f1.len() == 4 && f1[3] == r1 && f1[0] == v1);
    assert(f2.len() == 4 && f2[3] == r2 && f2[0] == v2);
    let borders = seq![bt] + seq![et] + (f1 + f2);
    assert(step_border_triples(b, name, step, none, none, none, position, end) =~= borders);
    assert(ts == head + nums + borders);
    let k: int = (head.len() + nums.len()) as int;
    assert(ts[k] == bt);
    assert(ts[k + 1] == et);
    assert(ts[k + 2] == v1);
    assert(ts[k + 5] == r1);
    assert(ts[k + 6] == v2);
    assert(ts[k + 9] == r2);
}

proof fn lemma_faldo_references(position: u64, path: Seq<char>, subj: Seq<char>, p: Option<&Term>, o: Option<&Term>)
    ensures
        references_to(faldo_triples(position, path, subj, p, o), path),
{
    lemma_vocab_not_reference();
    let v = position as i64;
    let a = opt((p is None || is_vocab(p, FALDO_POSITION_PRED@)) && (o is None || encodes_int(o, v)), tv(subj, FALDO_POSITION_PRED@, ObjectView::Int(v)));
    let c = opt((p is None || is_vocab(p, RDF_TYPE@)) && (o is None || is_vocab(o, FALDO_EXACT_POSITION@)), tv(subj, RDF_TYPE@, ObjectView::Iri(FALDO_EXACT_POSITION@)));
    let d = opt((p is None || is_vocab(p, RDF_TYPE@)) && (o is None || is_vocab(o, FALDO_POSITION@)), tv(subj, RDF_TYPE@, ObjectView::Iri(FALDO_POSITION@)));
    let f = opt(p is None || (is_vocab(p, FALDO_REFERENCE@) && (o is None || is_iri(o, path))), tv(subj, FALDO_REFERENCE@, ObjectView::Iri(path)));
    lemma_references_concat(a, c, path);
    lemma_references_concat(a + c, d, path);
    lemma_references_concat(a + c + d, f, path);
    assert(faldo_triples(position, path, subj, p, o) == a + c + d + f);
}

impl StorageGenerator {
    /// The IRI of a FALDO position on a path:
    /// `{base}/path/{name}/position/{position}`.
    pub fn get_faldo_border_namednode(&self, position: u64, path_name: &str) -> (r: Term)
        ensures
            r matches Term::NamedNode(n) && n.iri@ == position_iri(self.base_view(), path_name@, position),
    {
        iri_term(position_iri_string(&self.storage.base, path_name, position))
    }

    /// The IRI of a step: `{base}/path/{name}/step/{rank}`.
    pub fn step_to_namednode(&self, path_name: &str, rank: u64) -> (r: Term)
        ensures
            r matches Term::NamedNode(n) && n.iri@ == step_iri(self.base_view(), path_name@, rank),
    {
        iri_term(step_iri_string(&self.storage.base, path_name, rank))
    }

    /// The IRI of a path: `{base}/path/{name}`.
    pub fn path_to_namednode(&self, path_name: &str) -> (r: Term)
        ensures
            r matches Term::NamedNode(n) && n.iri@ == path_iri(self.base_view(), path_name@),
    {
        iri_term(path_iri_string(&self.storage.base, path_name))
    }

    /// The triples of a FALDO position (whose IRI is `subject`) on the path
    /// `path_iri`.
    pub fn faldo_for_step(
        &self,
        position: u64,
        path_iri: &Term,
        subject: &Term,
        predicate: Option<&Term>,
        object: Option<&Term>,
        graph_name: &GraphName,
    ) -> (r: Vec<Quad>)
        requires
            path_iri is NamedNode,
            subject is NamedNode,
        ensures
            quads_are(
                r@,
                faldo_triples(position, node_iri_of(*path_iri), node_iri_of(*subject), predicate, object),
                *graph_name,
            ),
    {
        let ghost subj = node_iri_of(*subject);
        let ghost path = node_iri_of(*path_iri);
        let mut results: Vec<Quad> = Vec::new();
        let ghost mut ts: Seq<TripleView> = Seq::empty();
        let v = position as i64;

        let c = (predicate.is_none() || is_vocab_exec(predicate, FALDO_POSITION_PRED))
            && (object.is_none() || encodes_int_exec(object, v));
        let ghost t = tv(subj, FALDO_POSITION_PRED@, ObjectView::Int(v));
        if c {
            push_triple(&mut results, subject.duplicate(), FALDO_POSITION_PRED, integer_term(v),
                graph_name, Ghost(ts), Ghost(t));
        }
        proof { lemma_opt(ts, c, t); ts = ts + opt(c, t); }

        let c = (predicate.is_none() || is_vocab_exec(predicate, RDF_TYPE))
            && (object.is_none() || is_vocab_exec(object, FALDO_EXACT_POSITION));
        let ghost t = tv(subj, RDF_TYPE@, ObjectView::Iri(FALDO_EXACT_POSITION@));
        if c {
            push_triple(&mut results, subject.duplicate(), RDF_TYPE, vocab_term(FALDO_EXACT_POSITION),
                graph_name, Ghost(ts), Ghost(t));
        }
        proof { lemma_opt(ts, c, t); ts = ts + opt(c, t); }

        let c = (predicate.is_none() || is_vocab_exec(predicate, RDF_TYPE))
            && (object.is_none() || is_vocab_exec(object, FALDO_POSITION));
        let ghost t = tv(subj, RDF_TYPE@, ObjectView::Iri(FALDO_POSITION@));
        if c {
            push_triple(&mut results, subject.duplicate(), RDF_TYPE, vocab_term(FALDO_POSITION),
                graph_name, Ghost(ts), Ghost(t));
        }
        proof { lemma_opt(ts, c, t); ts = ts + opt(c, t); }

        let c = predicate.is_none() || (is_vocab_exec(predicate, FALDO_REFERENCE) && (object.is_none()
            || is_iri_exec(object, path_iri)));
        let ghost t = tv(subj, FALDO_REFERENCE@, ObjectView::Iri(path));
        if c {
            push_triple(&mut results, subject.duplicate(), FALDO_REFERENCE, path_iri.duplicate(),
                graph_name, Ghost(ts), Ghost(t));
        }
        proof { lemma_opt(ts, c, t); ts = ts + opt(c, t); }
        assert(ts =~= faldo_triples(position, path, subj, predicate, object));
        results
    }
}

impl StorageGenerator {
    fn step_head(
        &self,
        step_iri: &Term,
        predicate: Option<&Term>,
        object: Option<&Term>,
        graph_name: &GraphName,
        node_handle: Handle,
    ) -> (r: Vec<Quad>)
        requires
            step_iri is NamedNode,
        ensures
            quads_are(
                r@,
                step_head_triples(self.base_view(), node_iri_of(*step_iri), predicate, object, node_handle),
                *graph_name,
            ),
    {
        let ghost step = node_iri_of(*step_iri);
        let mut results: Vec<Quad> = Vec::new();
        let ghost mut ts: Seq<TripleView> = Seq::empty();
        let type_asked = is_vocab_exec(predicate, RDF_TYPE) || predicate.is_none();
        if type_asked {
            let c = object.is_none() || is_vocab_exec(object, VG_STEP);
            let ghost t = tv(step, RDF_TYPE@, ObjectView::Iri(VG_STEP@));
            if c {
                push_triple(&mut results, step_iri.duplicate(), RDF_TYPE, vocab_term(VG_STEP),
                    graph_name, Ghost(ts), Ghost(t));
            }
            proof { lemma_opt(ts, c, t); ts = ts + opt(c, t); }
            let c = object.is_none() || is_vocab_exec(object, FALDO_REGION);
            let ghost t = tv(step, RDF_TYPE@, ObjectView::Iri(FALDO_REGION@));
            if c {
                push_triple(&mut results, step_iri.duplicate(), RDF_TYPE, vocab_term(FALDO_REGION),
                    graph_name, Ghost(ts), Ghost(t));
            }
            proof { lemma_opt(ts, c, t); ts = ts + opt(c, t); }
        }
        let node_iri = self.handle_to_namednode(node_handle);
        let ghost niri = node_iri_of(node_iri);
        let c = (is_vocab_exec(predicate, VG_NODE_PRED) || (predicate.is_none()
            && !node_handle.is_reverse)) && (object.is_none() || is_iri_exec(object, &node_iri));
        let ghost t = tv(step, VG_NODE_PRED@, ObjectView::Iri(niri));
        if c {
            push_triple(&mut results, step_iri.duplicate(), VG_NODE_PRED, node_iri.duplicate(),
                graph_name, Ghost(ts), Ghost(t));
        }
        proof { lemma_opt(ts, c, t); ts = ts + opt(c, t); }

        let c = (is_vocab_exec(predicate, VG_REVERSE_OF_NODE) || (predicate.is_none()
            && node_handle.is_reverse)) && (object.is_none() || is_iri_exec(object, &node_iri));
        let ghost t = tv(step, VG_REVERSE_OF_NODE@, ObjectView::Iri(niri));
        if c {
            push_triple(&mut results, step_iri.duplicate(), VG_REVERSE_OF_NODE, node_iri.duplicate(),
                graph_name, Ghost(ts), Ghost(t));
        }
        proof { lemma_opt(ts, c, t); ts = ts + opt(c, t); }
        assert(ts =~= step_head_triples(self.base_view(), step, predicate, object, node_handle));
        results
    }

    fn step_numbers(
        &self,
        step_iri: &Term,
        path_iri: &Term,
        predicate: Option<&Term>,
        object: Option<&Term>,
        graph_name: &GraphName,
        rank: u64,
        position: u64,
    ) -> (r: Vec<Quad>)
        requires
            step_iri is NamedNode,
            path_iri is NamedNode,
        ensures
            quads_are(
                r@,
                step_number_triples(node_iri_of(*step_iri), node_iri_of(*path_iri), predicate, object, rank, position),
                *graph_name,
            ),
    {
        let ghost step = node_iri_of(*step_iri);
        let ghost path = node_iri_of(*path_iri);
        let mut results: Vec<Quad> = Vec::new();
        let ghost mut ts: Seq<TripleView> = Seq::empty();
        let r = rank as i64;
        let q = position as i64;
        let c = (is_vocab_exec(predicate, VG_RANK) || predicate.is_none()) && (object.is_none()
            || encodes_int_exec(object, r));
        let ghost t = tv(step, VG_RANK@, ObjectView::Int(r));
        if c {
            push_triple(&mut results, step_iri.duplicate(), VG_RANK, integer_term(r),
                graph_name, Ghost(ts), Ghost(t));
        }
        proof { lemma_opt(ts, c, t); ts = ts + opt(c, t); }

        let c = (is_vocab_exec(predicate, VG_POSITION) || predicate.is_none()) && (object.is_none()
            || encodes_int_exec(object, q));
        let ghost t = tv(step, VG_RANK@, ObjectView::Int(q));
        if c {
            push_triple(&mut results, step_iri.duplicate(), VG_RANK, integer_term(q),
                graph_name, Ghost(ts), Ghost(t));
        }
        proof { lemma_opt(ts, c, t); ts = ts + opt(c, t); }

        let c = (is_vocab_exec(predicate, VG_PATH_PRED) || predicate.is_none()) && (object.is_none()
            || is_iri_exec(object, path_iri));
        let ghost t = tv(step, VG_PATH_PRED@, ObjectView::Iri(path));
        if c {
            push_triple(&mut results, step_iri.duplicate(), VG_PATH_PRED, path_iri.duplicate(),
                graph_name, Ghost(ts), Ghost(t));
        }
        proof { lemma_opt(ts, c, t); ts = ts + opt(c, t); }
        assert(ts =~= step_number_triples(step, path, predicate, object, rank, position));
        results
    }

    fn step_borders(
        &self,
        path_name: &str,
        step_iri: &Term,
        subject: Option<&Term>,
        predicate: Option<&Term>,
        object: Option<&Term>,
        graph_name: &GraphName,
        position: u64,
        end: u64,
    ) -> (r: Vec<Quad>)
        requires
            step_iri is NamedNode,
        ensures
            quads_are(
                r@,
                step_border_triples(self.base_view(), path_name@, node_iri_of(*step_iri), subject, predicate, object, position, end),
                *graph_name,
            ),
    {
        let ghost b = self.base_view();
        let ghost name = path_name@;
        let ghost step = node_iri_of(*step_iri);
        let mut results: Vec<Quad> = Vec::new();
        let ghost mut ts: Seq<TripleView> = Seq::empty();
        let c = predicate.is_none() || is_vocab_exec(predicate, FALDO_BEGIN);
        let ghost t = tv(step, FALDO_BEGIN@, ObjectView::Iri(position_iri(b, name, position)));
        if c {
            push_triple(&mut results, step_iri.duplicate(), FALDO_BEGIN,
                self.get_faldo_border_namednode(position, path_name), graph_name, Ghost(ts), Ghost(t));
        }
        proof { lemma_opt(ts, c, t); ts = ts + opt(c, t); }

        let c = predicate.is_none() || is_vocab_exec(predicate, FALDO_END);
        let ghost t = tv(step, FALDO_END@, ObjectView::Iri(position_iri(b, name, end)));
        if c {
            push_triple(&mut results, step_iri.duplicate(), FALDO_END,
                self.get_faldo_border_namednode(end, path_name), graph_name, Ghost(ts), Ghost(t));
        }
        proof { lemma_opt(ts, c, t); ts = ts + opt(c, t); }

        let ghost before_faldo = ts;
        if subject.is_none() {
            let path_iri = self.path_to_namednode(path_name);
            let ghost path = node_iri_of(path_iri);
            let begin = self.get_faldo_border_namednode(position, path_name);
            let begins = self.faldo_for_step(position, &path_iri, &begin, predicate, object, graph_name);
            append_quads(&mut results, begins, Ghost(ts),
                Ghost(faldo_triples(position, path, position_iri(b, name, position), predicate, object)),
                Ghost(*graph_name));
            proof { ts = ts + faldo_triples(position, path, position_iri(b, name, position), predicate, object); }
            let end_iri = self.get_faldo_border_namednode(end, path_name);
            let ends = self.faldo_for_step(end, &path_iri, &end_iri, predicate, object, graph_name);
            append_quads(&mut results, ends, Ghost(ts),
                Ghost(faldo_triples(end, path, position_iri(b, name, end), predicate, object)),
                Ghost(*graph_name));
            proof { ts = ts + faldo_triples(end, path, position_iri(b, name, end), predicate, object); }
            assert(ts =~= before_faldo + (faldo_triples(position, path, position_iri(b, name, position), predicate, object)
                + faldo_triples(end, path, position_iri(b, name, end), predicate, object)));
        } else {
            assert(ts =~= before_faldo + Seq::<TripleView>::empty());
        }
        assert(ts =~= step_border_triples(b, name, step, subject, predicate, object, position, end));
        results
    }

    /// The triples of the step of rank `rank` on the path `path_name`, on
    /// the handle `node_handle`, beginning at `position`: its types, node,
    /// rank, position, path and FALDO borders, as far as the pattern asks
    /// for them; and, where there is no subject, the triples of its two
    /// borders. None where the subject is another IRI than the step's.
    pub fn step_handle_to_triples(
        &self,
        path_name: &str,
        subject: Option<&Term>,
        predicate: Option<&Term>,
        object: Option<&Term>,
        graph_name: &GraphName,
        node_handle: Handle,
        rank: u64,
        position: u64,
    ) -> (r: Vec<Quad>)
        requires
            self.graph_view().has_node(node_handle.id),
            position + self.graph_view().node_len(node_handle.id) <= u64::MAX,
        ensures
            quads_are(
                r@,
                step_triples(
                    self.graph_view(),
                    self.base_view(),
                    path_name@,
                    subject,
                    predicate,
                    object,
                    node_handle,
                    rank,
                    position,
                ),
                *graph_name,
            ),
    {
        let ghost gv = self.graph_view();
        let ghost b = self.base_view();
        let ghost name = path_name@;
        let mut results: Vec<Quad> = Vec::new();
        let step_iri = self.step_to_namednode(path_name, rank);
        let node_len = self.storage.graph.node_len(node_handle.id);
        let path_iri = self.path_to_namednode(path_name);
        let ghost step = node_iri_of(step_iri);
        let ghost path = node_iri_of(path_iri);
        let end = position + node_len;
        let matches_subject = match subject {
            None => true,
            Some(_) => is_iri_exec(subject, &step_iri),
        };
        if !matches_subject {
            return results;
        }
        let head = self.step_head(&step_iri, predicate, object, graph_name, node_handle);
        append_quads(&mut results, head, Ghost(Seq::empty()),
            Ghost(step_head_triples(b, step, predicate, object, node_handle)), Ghost(*graph_name));
        let ghost ts = Seq::<TripleView>::empty() + step_head_triples(b, step, predicate, object, node_handle);
        let numbers = self.step_numbers(&step_iri, &path_iri, predicate, object, graph_name, rank, position);
        append_quads(&mut results, numbers, Ghost(ts),
            Ghost(step_number_triples(step, path, predicate, object, rank, position)), Ghost(*graph_name));
        let ghost ts2 = ts + step_number_triples(step, path, predicate, object, rank, position);
        let borders = self.step_borders(path_name, &step_iri, subject, predicate, object, graph_name, position, end);
        append_quads(&mut results, borders, Ghost(ts2),
            Ghost(step_border_triples(b, name, step, subject, predicate, object, position, end)), Ghost(*graph_name));
        assert(ts2 + step_border_triples(b, name, step, subject, predicate, object, position, end)
            =~= step_triples(gv, b, name, subject, predicate, object, node_handle, rank, position));
        results
    }
}

/// The summed lengths of the nodes of the first `i` steps of a path.
pub open spec fn prefix_len(gv: GraphView, steps: Seq<Handle>, i: int) -> int
    decreases i,
{
    if i <= 0 {
        0
    } else {
        prefix_len(gv, steps, i - 1) + gv.node_len(steps[i - 1].id)
    }
}

/// The index of the step where the walk along a path stops for a target
/// rank: the step of that rank, or the last step of a shorter path.
pub open spec fn rank_index(steps: Seq<Handle>, target: u64) -> int {
    if target <= 1 {
        0
    } else if target > steps.len() {
        steps.len() - 1
    } else {
        target - 1
    }
}

/// The index of the step of a path at a 0-based sequence offset: the first
/// step from `i` on whose node is longer than what remains of the offset.
pub open spec fn step_at_base(gv: GraphView, steps: Seq<Handle>, remaining: int, i: int) -> Option<
    int,
>
    decreases steps.len() - i,
{
    if i < 0 || i >= steps.len() {
        None
    } else if remaining < gv.node_len(steps[i].id) {
        Some(i)
    } else {
        step_at_base(gv, steps, remaining - gv.node_len(steps[i].id), i + 1)
    }
}

/// The triples of the first `k` steps of a path, the step at index `i`
/// having rank `i + 1` and the one-based position after the steps before it.
pub open spec fn path_step_triples(
    gv: GraphView,
    b: Seq<char>,
    name: Seq<char>,
    p: Option<&Term>,
    o: Option<&Term>,
    steps: Seq<Handle>,
    k: int,
) -> Seq<TripleView>
    decreases k,
{
    if k <= 0 {
        Seq::empty()
    } else {
        path_step_triples(gv, b, name, p, o, steps, k - 1) + step_triples(
            gv,
            b,
            name,
            None,
            p,
            o,
            steps[k - 1],
            k as u64,
            (1 + prefix_len(gv, steps, k - 1)) as u64,
        )
    }
}

/// The triples of all the steps of the first `k` paths.
pub open spec fn all_step_triples(
    gv: GraphView,
    b: Seq<char>,
    p: Option<&Term>,
    o: Option<&Term>,
    k: int,
) -> Seq<TripleView>
    decreases k,
{
    if k <= 0 {
        Seq::empty()
    } else {
        all_step_triples(gv, b, p, o, k - 1) + path_step_triples(
            gv,
            b,
            gv.paths[k - 1].name,
            p,
            o,
            gv.paths[k - 1].steps,
            gv.paths[k - 1].steps.len() as int,
        )
    }
}

/// The step triples for a pattern: with no subject, those of every step of
/// every path; for a step IRI by rank, those of the step that the walk along
/// the path stops at; for one by position, those of the step at that offset,
/// with its one-based index as rank.
pub open spec fn steps_spec(
    gv: GraphView,
    b: Seq<char>,
    subject: Option<&Term>,
    p: Option<&Term>,
    o: Option<&Term>,
) -> Seq<TripleView> {
    match subject {
        None => all_step_triples(gv, b, p, o, gv.paths.len() as int),
        Some(_) => match step_fields_of(subject) {
            None => Seq::empty(),
            Some((name, is_rank, v)) => if !gv.has_path(name) {
                Seq::empty()
            } else {
                let steps = gv.paths[gv.path_ix(name)].steps;
                if is_rank {
                    let i = rank_index(steps, v);
                    step_triples(gv, b, name, subject, p, o, steps[i], (i + 1) as u64, (1 + prefix_len(gv, steps, i)) as u64)
                } else {
                    match step_at_base(gv, steps, v as int, 0) {
                        Some(i) => step_triples(gv, b, name, subject, p, o, steps[i], (i + 1) as u64, v),
                        None => Seq::empty(),
                    }
                }
            },
        },
    }
}

/// Where the positions of the steps asked for lie within a `u64`: with no
/// subject, those of every path; by rank, up to the end of the step the walk
/// stops at; by position, the end of the step found.
pub open spec fn steps_defined(
    gv: GraphView,
    b: Seq<char>,
    subject: Option<&Term>,
    p: Option<&Term>,
    o: Option<&Term>,
) -> bool {
    match subject {
        None => forall|k: int|
            0 <= k < gv.paths.len() ==> 1 + prefix_len(gv, #[trigger] gv.paths[k].steps, gv.paths[k].steps.len() as int)
                <= u64::MAX,
        Some(_) => match step_fields_of(subject) {
            None => true,
            Some((name, is_rank, v)) => gv.has_path(name) ==> {
                let steps = gv.paths[gv.path_ix(name)].steps;
                if is_rank {
                    1 + prefix_len(gv, steps, rank_index(steps, v) + 1) <= u64::MAX
                } else {
                    match step_at_base(gv, steps, v as int, 0) {
                        Some(i) => v + gv.node_len(steps[i].id) <= u64::MAX,
                        None => true,
                    }
                }
            },
        },
    }
}

proof fn lemma_prefix_len_monotone(gv: GraphView, steps: Seq<Handle>, j: int, k: int)
    requires
        j <= k,
    ensures
        prefix_len(gv, steps, j) <= prefix_len(gv, steps, k),
    decreases k - j,
{
    if j < k {
        lemma_prefix_len_monotone(gv, steps, j, k - 1);
        if k > 0 {
            assert(prefix_len(gv, steps, k) == prefix_len(gv, steps, k - 1) + gv.node_len(steps[k - 1].id));
        }
    }
}

impl StorageGenerator {
    /// The index of the step at a 0-based sequence offset of a path, if the
    /// path is that long.
    fn path_step_at_base(&self, steps: &Vec<Handle>, position: u64) -> (r: Option<usize>)
        requires
            forall|k: int| 0 <= k < steps@.len() ==> self.graph_view().has_node(#[trigger] steps@[k].id),
        ensures
            r matches Some(i) ==> i < steps@.len() && step_at_base(self.graph_view(), steps@, position as int, 0) == Some(i as int),
            r is None ==> step_at_base(self.graph_view(), steps@, position as int, 0) is None,
    {
        let ghost gv = self.graph_view();
        let mut remaining: u64 = position;
        let mut i: usize = 0;
        while i < steps.len()
            invariant
                i <= steps@.len(),
                gv == self.graph_view(),
                forall|k: int| 0 <= k < steps@.len() ==> gv.has_node(#[trigger] steps@[k].id),
                step_at_base(gv, steps@, position as int, 0) == step_at_base(gv, steps@, remaining as int, i as int),
            decreases steps.len() - i,
        {
            let len = self.storage.graph.node_len(steps[i].id);
            if remaining < len {
                return Some(i);
            }
            remaining = remaining - len;
            i = i + 1;
        }
        None
    }

    /// The step triples for a pattern: with no subject, the triples of every
    /// step of every path, ranks counted from 1 and positions from 1; for a
    /// step IRI by rank, those of the step the walk along the path stops at;
    /// for one by position, those of the step at that 0-based offset of the
    /// path, with its one-based index as rank.
    pub fn steps(
        &self,
        subject: Option<&Term>,
        predicate: Option<&Term>,
        object: Option<&Term>,
        graph_name: &GraphName,
    ) -> (r: Vec<Quad>)
        requires
            steps_defined(self.graph_view(), self.base_view(), subject, predicate, object),
        ensures
            quads_are(
                r@,
                steps_spec(self.graph_view(), self.base_view(), subject, predicate, object),
                *graph_name,
            ),
    {
        proof {
            use_type_invariant(&self.storage.graph);
        }
        let ghost gv = self.graph_view();
        let ghost b = self.base_view();
        let mut results: Vec<Quad> = Vec::new();
        if subject.is_none() {
            let n = self.storage.graph.path_count();
            let mut k: usize = 0;
            while k < n
                invariant
                    k <= n,
                    n == gv.paths.len(),
                    gv == self.graph_view(),
                    b == self.base_view(),
                    gv.wf(),
                    steps_defined(gv, b, subject, predicate, object),
                    subject is None,
                    quads_are(results@, all_step_triples(gv, b, predicate, object, k as int), *graph_name),
                decreases n - k,
            {
                let name = self.storage.graph.path_name_at(k);
                let steps = self.storage.graph.path_steps_at(k);
                let ghost base = all_step_triples(gv, b, predicate, object, k as int);
                let ghost total = 1 + prefix_len(gv, steps@, steps@.len() as int);
                assert(total <= u64::MAX);
                let mut position: u64 = 1;
                let mut i: usize = 0;
                assert(base + path_step_triples(gv, b, name@, predicate, object, steps@, 0) =~= base);
                while i < steps.len()
                    invariant
                        gv == self.graph_view(),
                        b == self.base_view(),
                        gv.wf(),
                        k < gv.paths.len(),
                        steps@ == gv.paths[k as int].steps,
                        name@ == gv.paths[k as int].name,
                        subject is None,
                        i <= steps@.len(),
                        total == 1 + prefix_len(gv, steps@, steps@.len() as int),
                        total <= u64::MAX,
                        position == 1 + prefix_len(gv, steps@, i as int),
                        quads_are(results@, base + path_step_triples(gv, b, name@, predicate, object, steps@, i as int), *graph_name),
                    decreases steps@.len() - i,
                {
                    let node_handle = steps[i];
                    assert(gv.has_node(gv.paths[k as int].steps[i as int].id));
                    proof {
                        lemma_prefix_len_monotone(gv, steps@, i + 1, steps@.len() as int);
                        assert(steps@.len() <= crate::vg::MAX_LEN);
                    }
                    let rank = i as u64 + 1;
                    assert(subject == None::<&Term>);
                    let more = self.step_handle_to_triples(name.as_str(), subject, predicate, object,
                        graph_name, node_handle, rank, position);
                    append_quads(&mut results, more,
                        Ghost(base + path_step_triples(gv, b, name@, predicate, object, steps@, i as int)),
                        Ghost(step_triples(gv, b, name@, None, predicate, object, node_handle, rank, position)),
                        Ghost(*graph_name));
                    assert(base + path_step_triples(gv, b, name@, predicate, object, steps@, i + 1)
                        =~= base + path_step_triples(gv, b, name@, predicate, object, steps@, i as int)
                        + step_triples(gv, b, name@, None, predicate, object, node_handle, rank, position));
                    let len = self.storage.graph.node_len(node_handle.id);
                    position = position + len;
                    i = i + 1;
                }
                k = k + 1;
            }
            return results;
        }
        let fields = get_step_iri_fields(subject);
        match fields {
            None => {},
            Some(StepType::Rank(path_name, target_rank)) => {
                let name_chars = crate::utils::chars_of(path_name.as_str());
                if let Some(p) = self.storage.graph.find_path(&name_chars) {
                    let steps = self.storage.graph.path_steps_at(p);
                    assert(steps@.len() > 0);
                    let ghost stop = rank_index(steps@, target_rank);
                    assert(steps@.len() <= crate::vg::MAX_LEN);
                    let mut position: u64 = 1;
                    let last = steps.len() - 1;
                    let stop_at: usize = if target_rank <= 1 {
                        0
                    } else if target_rank > steps.len() as u64 {
                        last
                    } else {
                        (target_rank - 1) as usize
                    };
                    assert(stop_at == stop);
                    let mut i: usize = 0;
                    while i < stop_at
                        invariant
                            stop_at == stop,
                            gv == self.graph_view(),
                            gv.wf(),
                            p < gv.paths.len(),
                            steps@ == gv.paths[p as int].steps,
                            stop == rank_index(steps@, target_rank),
                            1 + prefix_len(gv, steps@, stop + 1) <= u64::MAX,
                            0 <= i <= stop,
                            i < steps@.len(),
                            steps@.len() <= crate::vg::MAX_LEN,
                            position == 1 + prefix_len(gv, steps@, i as int),
                        decreases steps@.len() - i,
                    {
                        assert(gv.has_node(gv.paths[p as int].steps[i as int].id));
                        proof {
                            lemma_prefix_len_monotone(gv, steps@, i + 1, stop + 1);
                        }
                        let len = self.storage.graph.node_len(steps[i].id);
                        position = position + len;
                        i = i + 1;
                    }
                    assert(i == stop);
                    let node_handle = steps[i];
                    assert(gv.has_node(gv.paths[p as int].steps[i as int].id));
                    assert(steps@.len() <= crate::vg::MAX_LEN);
                    let rank = i as u64 + 1;
                    let more = self.step_handle_to_triples(path_name.as_str(), subject, predicate,
                        object, graph_name, node_handle, rank, position);
                    append_quads(&mut results, more, Ghost(Seq::empty()),
                        Ghost(step_triples(gv, b, path_name@, subject, predicate, object, node_handle, rank, position)),
                        Ghost(*graph_name));
                    assert(Seq::<TripleView>::empty() + step_triples(gv, b, path_name@, subject, predicate, object, node_handle, rank, position)
                        =~= step_triples(gv, b, path_name@, subject, predicate, object, node_handle, rank, position));
                }
            },
            Some(StepType::Position(path_name, position)) => {
                let name_chars = crate::utils::chars_of(path_name.as_str());
                if let Some(p) = self.storage.graph.find_path(&name_chars) {
                    let steps = self.storage.graph.path_steps_at(p);
                    assert(forall|k: int| 0 <= k < steps@.len() ==> gv.has_node(#[trigger] steps@[k].id));
                    if let Some(i) = self.path_step_at_base(steps, position) {
                        let node_handle = steps[i];
                        assert(steps@.len() <= crate::vg::MAX_LEN);
                        let rank = i as u64 + 1;
                        let more = self.step_handle_to_triples(path_name.as_str(), subject, predicate,
                            object, graph_name, node_handle, rank, position);
                        append_quads(&mut results, more, Ghost(Seq::empty()),
                            Ghost(step_triples(gv, b, path_name@, subject, predicate, object, node_handle, rank, position)),
                            Ghost(*graph_name));
                        assert(Seq::<TripleView>::empty() + step_triples(gv, b, path_name@, subject, predicate, object, node_handle, rank, position)
                            =~= step_triples(gv, b, path_name@, subject, predicate, object, node_handle, rank, position));
                    }
                }
            },
        }
        results
    }
}

/// The type triples of the first `k` paths that the pattern asks for.
pub open spec fn path_triples(
    gv: GraphView,
    b: Seq<char>,
    s: Option<&Term>,
    p: Option<&Term>,
    o: Option<&Term>,
    k: int,
) -> Seq<TripleView>
    decreases k,
{
    if k <= 0 {
        Seq::empty()
    } else {
        let path = path_iri(b, gv.paths[k - 1].name);
        path_triples(gv, b, s, p, o, k - 1) + opt(
            (s is None || is_iri(s, path)) && (p is None || is_vocab(p, RDF_TYPE@)) && (o is None
                || is_vocab(o, VG_PATH@)),
            tv(path, RDF_TYPE@, ObjectView::Iri(VG_PATH@)),
        )
    }
}

/// The quads of the view for a pattern. None where the subject or the
/// object is a blank node, or where the predicate is `rdf:type` with an
/// object; the node triples for a link predicate; the step triples for a
/// step predicate; none for any other.
pub open spec fn pattern_spec(
    gv: GraphView,
    b: Seq<char>,
    s: Option<&Term>,
    p: Option<&Term>,
    o: Option<&Term>,
) -> Seq<TripleView> {
    if is_blank(s) || is_blank(o) {
        Seq::empty()
    } else if is_vocab(p, RDF_TYPE@) && o is Some {
        Seq::empty()
    } else if is_node_related(p) {
        nodes_spec(gv, b, s, p, o)
    } else if is_step_associated(p) {
        steps_spec(gv, b, s, p, o)
    } else {
        Seq::empty()
    }
}

/// Where answering a pattern completes.
pub open spec fn pattern_defined(
    gv: GraphView,
    b: Seq<char>,
    s: Option<&Term>,
    p: Option<&Term>,
    o: Option<&Term>,
) -> bool {
    if is_blank(s) || is_blank(o) {
        true
    } else if is_vocab(p, RDF_TYPE@) && o is Some {
        true
    } else if is_node_related(p) {
        nodes_defined(gv, b, s, p, o)
    } else if is_step_associated(p) {
        steps_defined(gv, b, s, p, o)
    } else {
        true
    }
}

impl StorageGenerator {
    /// The type triple `vg:Path` of each path that the pattern asks for.
    pub fn paths(
        &self,
        subject: Option<&Term>,
        predicate: Option<&Term>,
        object: Option<&Term>,
        graph_name: &GraphName,
    ) -> (r: Vec<Quad>)
        ensures
            quads_are(
                r@,
                path_triples(self.graph_view(), self.base_view(), subject, predicate, object,
                    self.graph_view().paths.len() as int),
                *graph_name,
            ),
    {
        let ghost gv = self.graph_view();
        let ghost b = self.base_view();
        let mut results: Vec<Quad> = Vec::new();
        let n = self.storage.graph.path_count();
        let mut k: usize = 0;
        while k < n
            invariant
                k <= n,
                n == gv.paths.len(),
                gv == self.graph_view(),
                b == self.base_view(),
                quads_are(results@, path_triples(gv, b, subject, predicate, object, k as int), *graph_name),
            decreases n - k,
        {
            let name = self.storage.graph.path_name_at(k);
            let path_node = self.path_to_namednode(name.as_str());
            let ghost path = node_iri_of(path_node);
            let c = (subject.is_none() || is_iri_exec(subject, &path_node)) && (predicate.is_none()
                || is_vocab_exec(predicate, RDF_TYPE)) && (object.is_none() || is_vocab_exec(
                object,
                VG_PATH,
            ));
            let ghost t = tv(path, RDF_TYPE@, ObjectView::Iri(VG_PATH@));
            let ghost ts = path_triples(gv, b, subject, predicate, object, k as int);
            if c {
                push_triple(&mut results, path_node, RDF_TYPE, vocab_term(VG_PATH), graph_name,
                    Ghost(ts), Ghost(t));
            }
            proof {
                lemma_opt(ts, c, t);
            }
            k = k + 1;
        }
        results
    }

    /// The quads of the view that match a pattern, in the given graph. None
    /// where the subject or the object is a blank node, or where the
    /// predicate is `rdf:type` with an object; the node triples for a link
    /// predicate; the step triples for a step predicate; none for any other.
    pub fn quads_for_pattern(
        &self,
        subject: Option<&Term>,
        predicate: Option<&Term>,
        object: Option<&Term>,
        graph_name: &GraphName,
    ) -> (r: Vec<Quad>)
        requires
            pattern_defined(self.graph_view(), self.base_view(), subject, predicate, object),
        ensures
            quads_are(
                r@,
                pattern_spec(self.graph_view(), self.base_view(), subject, predicate, object),
                *graph_name,
            ),
    {
        let subject_blank = match subject {
            Some(Term::BlankNode(_)) => true,
            _ => false,
        };
        let object_blank = match object {
            Some(Term::BlankNode(_)) => true,
            _ => false,
        };
        if subject_blank || object_blank {
            return Vec::new();
        }
        if is_vocab_exec(predicate, RDF_TYPE) && object.is_some() {
            Vec::new()
        } else if is_node_related_exec(predicate) {
            self.nodes(subject, predicate, object, graph_name)
        } else if is_step_associated_exec(predicate) {
            self.steps(subject, predicate, object, graph_name)
        } else {
            Vec::new()
        }
    }

    /// This view stores no strings: every lookup finds none.
    pub fn get_str(&self, _key: &crate::str_hash::StrHash) -> (r: Result<Option<String>, crate::error::StorageError>)
        ensures
            r == Ok::<Option<String>, crate::error::StorageError>(None),
    {
        Ok(None)
    }

    /// This view answers every string as present.
    pub fn contains_str(&self, _key: &crate::str_hash::StrHash) -> (r: Result<bool, crate::error::StorageError>)
        ensures
            r == Ok::<bool, crate::error::StorageError>(true),
    {
        Ok(true)
    }
}

// ---------------------------------------------------------------------------
// Reader

/// The quads of the view that a reader gives for a pattern. None where the
/// subject or the object is a blank node, or where the predicate is
/// `rdf:type` with an object; the node triples for a link predicate; none for
/// any other.
pub open spec fn reader_pattern_spec(
    gv: GraphView,
    b: Seq<char>,
    s: Option<&Term>,
    p: Option<&Term>,
    o: Option<&Term>,
) -> Seq<TripleView> {
    if is_blank(s) || is_blank(o) {
        Seq::empty()
    } else if is_vocab(p, RDF_TYPE@) && o is Some {
        Seq::empty()
    } else if is_node_related(p) {
        nodes_spec(gv, b, s, p, o)
    } else {
        Seq::empty()
    }
}

/// Where a reader's answer to a pattern completes.
pub open spec fn reader_pattern_defined(
    gv: GraphView,
    b: Seq<char>,
    s: Option<&Term>,
    p: Option<&Term>,
    o: Option<&Term>,
) -> bool {
    !(is_blank(s) || is_blank(o)) && !(is_vocab(p, RDF_TYPE@) && o is Some) && is_node_related(p)
        ==> nodes_defined(gv, b, s, p, o)
}

/// A read view of a storage: the node triples of its graph. It keeps no
/// quads of its own and no strings.
pub struct StorageReader {
    generator: StorageGenerator,
}

impl StorageReader {
    pub closed spec fn graph_view(&self) -> GraphView {
        self.generator.graph_view()
    }

    pub closed spec fn base_view(&self) -> Seq<char> {
        self.generator.base_view()
    }

    /// The reader counts no stored quads.
    pub fn len(&self) -> (r: Result<usize, crate::error::StorageError>)
        ensures
            r == Ok::<usize, crate::error::StorageError>(0),
    {
        Ok(0)
    }

    /// The reader counts no stored quads.
    pub fn is_empty(&self) -> (r: Result<bool, crate::error::StorageError>)
        ensures
            r == Ok::<bool, crate::error::StorageError>(true),
    {
        Ok(true)
    }

    /// The reader answers every quad as present.
    pub fn contains(&self, _quad: &crate::numeric_encoder::EncodedQuad) -> (r: Result<
        bool,
        crate::error::StorageError,
    >)
        ensures
            r == Ok::<bool, crate::error::StorageError>(true),
    {
        Ok(true)
    }

    /// The quads of the view that match a pattern, in the given graph: none
    /// where the subject or the object is a blank node, or where the
    /// predicate is `rdf:type` with an object; the node triples for a link
    /// predicate; none for any other. A graph name must be given.
    pub fn quads_for_pattern(
        &self,
        subject: Option<&Term>,
        predicate: Option<&Term>,
        object: Option<&Term>,
        graph_name: Option<&GraphName>,
    ) -> (r: Vec<Quad>)
        requires
            graph_name is Some,
            reader_pattern_defined(self.graph_view(), self.base_view(), subject, predicate, object),
        ensures
            quads_are(
                r@,
                reader_pattern_spec(self.graph_view(), self.base_view(), subject, predicate, object),
                *graph_name.unwrap(),
            ),
    {
        let graph_name = graph_name.unwrap();
        let subject_blank = match subject {
            Some(Term::BlankNode(_)) => true,
            _ => false,
        };
        let object_blank = match object {
            Some(Term::BlankNode(_)) => true,
            _ => false,
        };
        if subject_blank || object_blank {
            return Vec::new();
        }
        if is_vocab_exec(predicate, RDF_TYPE) && object.is_some() {
            Vec::new()
        } else if is_node_related_exec(predicate) {
            self.generator.nodes(subject, predicate, object, graph_name)
        } else {
            Vec::new()
        }
    }

    /// The reader lists no stored quads.
    pub fn quads(&self) -> (r: Vec<Quad>)
        ensures
            r@.len() == 0,
    {
        Vec::new()
    }

    /// The reader lists no named graphs.
    pub fn named_graphs(&self) -> (r: Vec<EncodedTerm>)
        ensures
            r@.len() == 0,
    {
        Vec::new()
    }

    /// The reader answers every graph as present.
    pub fn contains_named_graph(&self, _graph_name: &EncodedTerm) -> (r: Result<
        bool,
        crate::error::StorageError,
    >)
        ensures
            r == Ok::<bool, crate::error::StorageError>(true),
    {
        Ok(true)
    }

    /// The reader stores no strings: every lookup finds none.
    pub fn get_str(&self, _key: &crate::str_hash::StrHash) -> (r: Result<
        Option<String>,
        crate::error::StorageError,
    >)
        ensures
            r == Ok::<Option<String>, crate::error::StorageError>(None),
    {
        Ok(None)
    }

    /// The reader answers every string as present.
    pub fn contains_str(&self, _key: &crate::str_hash::StrHash) -> (r: Result<
        bool,
        crate::error::StorageError,
    >)
        ensures
            r == Ok::<bool, crate::error::StorageError>(true),
    {
        Ok(true)
    }

    /// There is nothing to check in a view.
    pub fn validate(&self) -> (r: Result<(), crate::error::StorageError>)
        ensures
            r is Ok,
    {
        Ok(())
    }
}

/// Whether the pattern term is the IRI that `iri` is.
fn is_iri_exec(t: Option<&Term>, iri: &Term) -> (r: bool)
    requires
        iri is NamedNode,
    ensures
        r == is_iri(t, node_iri_of(*iri)),
{
    match iri {
        Term::NamedNode(n) => is_vocab_exec(t, n.iri.as_str()),
        _ => false,
    }
}

/// The IRI of a term that is one.
pub open spec fn node_iri_of(t: Term) -> Seq<char> {
    match t {
        Term::NamedNode(n) => n.iri@,
        _ => Seq::empty(),
    }
}

// ---------------------------------------------------------------------------
// Laws

proof fn lemma_no_slash_digits(s: Seq<char>)
    requires
        crate::text::all_digits(s),
    ensures
        forall|i: int| 0 <= i < s.len() ==> s[i] != '/',
{
    assert forall|i: int| 0 <= i < s.len() implies s[i] != '/' by {
        assert(crate::text::is_digit(s[i]));
    }
}

proof fn lemma_parse_decimal(n: u64)
    ensures
        parse_u64_spec(decimal(n as nat)) == Some(n),
{
    lemma_decimal(n as nat);
    let d = decimal(n as nat);
    assert(crate::text::is_digit(d[0]));
}

/// The segments of `{a}/{w}/{rest}`, `w` and `rest` without slashes.
proof fn lemma_split_two(a: Seq<char>, w: Seq<char>, rest: Seq<char>)
    requires
        forall|i: int| 0 <= i < w.len() ==> w[i] != '/',
        forall|i: int| 0 <= i < rest.len() ==> rest[i] != '/',
    ensures
        split_slash(a + seq!['/'] + w + seq!['/'] + rest) == split_slash(a).push(w).push(rest),
{
    lemma_split_slash_segment(a, w);
    assert(a + seq!['/'] + w =~= a.push('/') + w);
    lemma_split_slash_segment(a + seq!['/'] + w, rest);
    assert(a + seq!['/'] + w + seq!['/'] + rest =~= (a + seq!['/'] + w).push('/') + rest);
}

/// The IRI that the view gives a node names that node: its id is read back
/// from it, whatever the base.
pub proof fn law_node_iri_names_node(base: Seq<char>, id: u64)
    ensures
        node_id_of_iri(node_iri(base, id)) == Some(id),
{
    let node = seq!['n', 'o', 'd', 'e'];
    lemma_decimal(id as nat);
    lemma_no_slash_digits(decimal(id as nat));
    lemma_split_two(base, node, decimal(id as nat));
    assert(node_iri(base, id) =~= base + seq!['/'] + node + seq!['/'] + decimal(id as nat));
    let parts = split_slash(base).push(node).push(decimal(id as nat));
    assert(parts[parts.len() - 2] == node);
    assert(parts.last() == decimal(id as nat));
    lemma_parse_decimal(id);
}

/// The segments of a path's IRI followed by `/{kind}/{number}`.
proof fn lemma_split_step_iri(base: Seq<char>, name: Seq<char>, kind: Seq<char>, n: u64)
    requires
        forall|i: int| 0 <= i < name.len() ==> name[i] != '/',
        forall|i: int| 0 <= i < kind.len() ==> kind[i] != '/',
    ensures
        split_slash(path_iri(base, name) + seq!['/'] + kind + seq!['/'] + decimal(n as nat))
            == split_slash(base).push(seq!['p', 'a', 't', 'h']).push(name).push(kind).push(
            decimal(n as nat),
        ),
{
    let path = seq!['p', 'a', 't', 'h'];
    lemma_split_two(base, path, name);
    assert(path_iri(base, name) =~= base + seq!['/'] + path + seq!['/'] + name);
    lemma_decimal(n as nat);
    lemma_no_slash_digits(decimal(n as nat));
    lemma_split_two(path_iri(base, name), kind, decimal(n as nat));
}

/// The IRI that the view gives a step is read back to its path's name and
/// rank, where the name holds no slash.
pub proof fn law_step_iri_fields(base: Seq<char>, name: Seq<char>, rank: u64)
    requires
        forall|i: int| 0 <= i < name.len() ==> name[i] != '/',
    ensures
        step_fields_of_iri(step_iri(base, name, rank)) == Some((name, true, rank)),
{
    let step = seq!['s', 't', 'e', 'p'];
    lemma_split_step_iri(base, name, step, rank);
    assert(step_iri(base, name, rank) =~= path_iri(base, name) + seq!['/'] + step + seq!['/']
        + decimal(rank as nat));
    lemma_split_slash_len(base);
    lemma_parse_decimal(rank);
    let p = split_slash(base).push(seq!['p', 'a', 't', 'h']).push(name).push(step).push(
        decimal(rank as nat),
    );
    let n = p.len();
    assert(p[n - 4] == seq!['p', 'a', 't', 'h']);
    assert(p[n - 3] == name);
    assert(p[n - 2] == step);
    assert(p[n - 1] == decimal(rank as nat));
}

/// The IRI that the view gives a position on a path is read back to the
/// path's name and the position, where the name holds no slash.
pub proof fn law_position_iri_fields(base: Seq<char>, name: Seq<char>, position: u64)
    requires
        forall|i: int| 0 <= i < name.len() ==> name[i] != '/',
    ensures
        step_fields_of_iri(position_iri(base, name, position)) == Some((name, false, position)),
{
    let kind = seq!['p', 'o', 's', 'i', 't', 'i', 'o', 'n'];
    lemma_split_step_iri(base, name, kind, position);
    assert(position_iri(base, name, position) =~= path_iri(base, name) + seq!['/'] + kind
        + seq!['/'] + decimal(position as nat));
    lemma_split_slash_len(base);
    lemma_parse_decimal(position);
    let p = split_slash(base).push(seq!['p', 'a', 't', 'h']).push(name).push(kind).push(
        decimal(position as nat),
    );
    let n = p.len();
    assert(p[n - 4] == seq!['p', 'a', 't', 'h']);
    assert(p[n - 3] == name);
    assert(p[n - 2] == kind);
    assert(p[n - 2] != seq!['s', 't', 'e', 'p']);
    assert(p[n - 1] == decimal(position as nat));
}

/// With no pattern, the node triples describe every node of the graph:
/// its type `vg:Node` and its sequence under `rdf:value`.
pub proof fn law_nodes_describe_every_node(gv: GraphView, b: Seq<char>, i: int)
    requires
        gv.wf(),
        0 <= i < gv.nodes.len(),
    ensures
        nodes_spec(gv, b, None, None, None).contains(
            tv(node_iri(b, gv.nodes[i].id), RDF_TYPE@, ObjectView::Iri(VG_NODE@)),
        ),
        nodes_spec(gv, b, None, None, None).contains(
            tv(node_iri(b, gv.nodes[i].id), RDF_VALUE@, ObjectView::Str(gv.nodes[i].sequence)),
        ),
{
    lemma_all_node_triples_describe(gv, b, i, gv.nodes.len() as int);
}

proof fn lemma_all_node_triples_describe(gv: GraphView, b: Seq<char>, i: int, k: int)
    requires
        gv.wf(),
        0 <= i < k <= gv.nodes.len(),
    ensures
        all_node_triples(gv, b, None, None, k).contains(
            tv(node_iri(b, gv.nodes[i].id), RDF_TYPE@, ObjectView::Iri(VG_NODE@)),
        ),
        all_node_triples(gv, b, None, None, k).contains(
            tv(node_iri(b, gv.nodes[i].id), RDF_VALUE@, ObjectView::Str(gv.nodes[i].sequence)),
        ),
    decreases k,
{
    let id = gv.nodes[i].id;
    let s = node_iri(b, id);
    let t1 = tv(s, RDF_TYPE@, ObjectView::Iri(VG_NODE@));
    let t2 = tv(s, RDF_VALUE@, ObjectView::Str(gv.nodes[i].sequence));
    let prev = all_node_triples(gv, b, None, None, k - 1);
    if i < k - 1 {
        lemma_all_node_triples_describe(gv, b, i, k - 1);
        let w1 = choose|j: int| 0 <= j < prev.len() && prev[j] == t1;
        let w2 = choose|j: int| 0 <= j < prev.len() && prev[j] == t2;
        let all = all_node_triples(gv, b, None, None, k);
        assert(all[w1] == t1);
        assert(all[w2] == t2);
    } else {
        law_node_iri_names_node(b, id);
        assert(gv.has_node(id));
        let ix = gv.node_ix(id);
        assert(gv.nodes[ix].id == gv.nodes[i].id);
        assert(ix == i);
        let nt = node_triples(gv, b, s, None, None);
        let h = handle_triples(gv, s, id, None, None);
        assert(h == seq![t2]);
        assert(nt == opt(true, t1) + (h + handle_edge_triples(gv, b, id, None, None)));
        let all = all_node_triples(gv, b, None, None, k);
        assert(all == prev + nt);
        assert(all[prev.len() as int] == t1);
        assert(all[prev.len() as int + 1] == t2);
    }
}

} // verus!
