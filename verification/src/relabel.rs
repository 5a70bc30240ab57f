//! Fresh blank nodes for a loaded document: each blank node label of the
//! document gets a random numerical identifier, the same at each of its
//! occurrences, so that the blank nodes of different loads stay apart.

use vstd::prelude::*;
use crate::model::{BlankNode, GraphName, NamedNode, Quad, Term, Triple};
use crate::term_decoder::{hex_format, numerical_blank_node_str};
use crate::text::str_eq;

verus! {

broadcast use vstd::map_lib::lemma_submap_of_trans;

/// `rand::random::<u128>()`: a random identifier. Nothing is claimed of its
/// value.
#[verifier::external_body]
fn random_id() -> (r: u128) {
    rand::random::<u128>()
}

/// The identifiers of a sequence of labelled entries, by label.
pub open spec fn ids_of(s: Seq<(Seq<char>, u128)>) -> Map<Seq<char>, u128>
    decreases s.len(),
{
    if s.len() == 0 {
        Map::empty()
    } else {
        ids_of(s.drop_last()).insert(s.last().0, s.last().1)
    }
}

/// No label comes twice.
pub open spec fn labels_unique(s: Seq<(Seq<char>, u128)>) -> bool {
    forall|i: int, j: int| 0 <= i < s.len() && 0 <= j < s.len() && i != j ==> #[trigger] s[i].0 != #[trigger] s[j].0
}

/// Whether some entry has the identifier `d`.
pub open spec fn id_taken(s: Seq<(Seq<char>, u128)>, d: int) -> bool {
    exists|j: int| 0 <= j < s.len() && (#[trigger] s[j]).1 == d
}

/// No identifier comes twice.
pub open spec fn ids_unique(s: Seq<(Seq<char>, u128)>) -> bool {
    forall|i: int, j: int| 0 <= i < s.len() && 0 <= j < s.len() && i != j ==> #[trigger] s[i].1 != #[trigger] s[j].1
}

/// Whether a map of labels to identifiers gives distinct labels distinct
/// identifiers.
pub open spec fn ids_injective(ids: Map<Seq<char>, u128>) -> bool {
    forall|a: Seq<char>, b: Seq<char>|
        #[trigger] ids.contains_key(a) && #[trigger] ids.contains_key(b) && a != b ==> ids[a] != ids[b]
}

proof fn lemma_ids_of(s: Seq<(Seq<char>, u128)>)
    requires
        labels_unique(s),
    ensures
        forall|k: Seq<char>| #[trigger] ids_of(s).contains_key(k) <==> exists|i: int| 0 <= i < s.len() && s[i].0 == k,
        forall|i: int| 0 <= i < s.len() ==> #[trigger] ids_of(s)[s[i].0] == s[i].1,
    decreases s.len(),
{
    if s.len() > 0 {
        let init = s.drop_last();
        assert(labels_unique(init)) by {
            assert forall|i: int, j: int| 0 <= i < init.len() && 0 <= j < init.len() && i != j implies #[trigger] init[i].0 != #[trigger] init[j].0 by {
                assert(init[i] == s[i] && init[j] == s[j]);
            }
        }
        lemma_ids_of(init);
        assert forall|k: Seq<char>| #[trigger] ids_of(s).contains_key(k) <==> exists|i: int| 0 <= i < s.len() && s[i].0 == k by {
            if ids_of(init).contains_key(k) {
                let i = choose|i: int| 0 <= i < init.len() && init[i].0 == k;
                assert(s[i] == init[i]);
            }
            if exists|i: int| 0 <= i < s.len() && s[i].0 == k {
                let i = choose|i: int| 0 <= i < s.len() && s[i].0 == k;
                if i < init.len() {
                    assert(init[i] == s[i]);
                }
            }
        }
        assert forall|i: int| 0 <= i < s.len() implies #[trigger] ids_of(s)[s[i].0] == s[i].1 by {
            let n = s.len() - 1;
            if i < n {
                assert(init[i] == s[i]);
                assert(s[i].0 != s[n].0);
                assert(ids_of(init)[init[i].0] == init[i].1);
            }
        }
    }
}

/// The identifiers given so far to the labels of a document.
struct BlankNodeMap {
    entries: Vec<(String, u128)>,
}

spec fn entry_view(e: (String, u128)) -> (Seq<char>, u128) {
    (e.0@, e.1)
}

impl BlankNodeMap {
    spec fn entries_view(&self) -> Seq<(Seq<char>, u128)> {
        self.entries@.map_values(|e: (String, u128)| entry_view(e))
    }

    spec fn wf(&self) -> bool {
        labels_unique(self.entries_view()) && ids_unique(self.entries_view())
    }

    proof fn lemma_injective(&self)
        requires
            self.wf(),
        ensures
            ids_injective(self.ids()),
    {
        let s = self.entries_view();
        lemma_ids_of(s);
        assert forall|a: Seq<char>, b: Seq<char>|
            #[trigger] self.ids().contains_key(a) && #[trigger] self.ids().contains_key(b) && a != b implies self.ids()[a]
            != self.ids()[b] by {
            let i = choose|i: int| 0 <= i < s.len() && s[i].0 == a;
            let j = choose|j: int| 0 <= j < s.len() && s[j].0 == b;
            assert(self.ids()[s[i].0] == s[i].1);
            assert(self.ids()[s[j].0] == s[j].1);
        }
    }

    /// Whether an identifier is given to some label.
    fn id_used(&self, id: u128) -> (r: bool)
        ensures
            r == exists|j: int| 0 <= j < self.entries_view().len() && (#[trigger] self.entries_view()[j]).1 == id,
    {
        let mut i: usize = 0;
        while i < self.entries.len()
            invariant
                i <= self.entries@.len(),
                forall|j: int| 0 <= j < i ==> (#[trigger] self.entries_view()[j]).1 != id,
            decreases self.entries@.len() - i,
        {
            assert(self.entries_view()[i as int] == entry_view(self.entries@[i as int]));
            if self.entries[i].1 == id {
                return true;
            }
            i = i + 1;
        }
        false
    }

    /// An identifier that no label has: one of the first ones, as there are
    /// fewer labels than them.
    fn unused_id(&self) -> (r: u128)
        ensures
            forall|j: int| 0 <= j < self.entries_view().len() ==> (#[trigger] self.entries_view()[j]).1 != r,
    {
        let n = self.entries.len();
        let mut c: u128 = 0;
        while c <= n as u128
            invariant
                n == self.entries_view().len(),
                c <= n + 1,
                forall|d: int| 0 <= d < c ==> #[trigger] id_taken(self.entries_view(), d),
            decreases n + 1 - c,
        {
            if !self.id_used(c) {
                return c;
            }
            c = c + 1;
        }
        proof {
            let ev = self.entries_view();
            let used = ev.map_values(|e: (Seq<char>, u128)| e.1 as int);
            let range = vstd::set_lib::set_int_range(0, n + 1);
            vstd::set_lib::lemma_int_range(0, n + 1);
            used.lemma_cardinality_of_set();
            vstd::seq_lib::seq_to_set_is_finite(used);
            assert forall|d: int| range.contains(d) implies used.to_set().contains(d) by {
                assert(id_taken(ev, d));
                let j = choose|j: int| 0 <= j < ev.len() && (#[trigger] ev[j]).1 == d;
                assert(used[j] == d);
            }
            vstd::set_lib::lemma_len_subset(range, used.to_set());
        }
        0
    }

    spec fn ids(&self) -> Map<Seq<char>, u128> {
        ids_of(self.entries_view())
    }

    fn new() -> (r: Self)
        ensures
            r.wf(),
            r.ids() == Map::<Seq<char>, u128>::empty(),
    {
        let r = BlankNodeMap { entries: Vec::new() };
        assert(r.entries_view() =~= Seq::<(Seq<char>, u128)>::empty());
        r
    }

    /// The identifier of the label: the one it was given, or a new random one.
    fn id_for(&mut self, label: &str) -> (r: u128)
        requires
            old(self).wf(),
        ensures
            final(self).wf(),
            old(self).ids().contains_key(label@) ==> r == old(self).ids()[label@] && final(self).ids() == old(self).ids(),
            !old(self).ids().contains_key(label@) ==> final(self).ids() == old(self).ids().insert(label@, r),
            !old(self).ids().contains_key(label@) ==> forall|k: Seq<char>| #[trigger] old(self).ids().contains_key(k) ==> old(self).ids()[k] != r,
    {
        proof {
            lemma_ids_of(self.entries_view());
        }
        let mut i: usize = 0;
        while i < self.entries.len()
            invariant
                self.wf(),
                i <= self.entries@.len(),
                forall|j: int| 0 <= j < i ==> (#[trigger] self.entries_view()[j]).0 != label@,
                forall|k: Seq<char>| #[trigger] self.ids().contains_key(k) <==> exists|j: int| 0 <= j < self.entries_view().len() && self.entries_view()[j].0 == k,
                forall|j: int| 0 <= j < self.entries_view().len() ==> #[trigger] self.ids()[self.entries_view()[j].0] == self.entries_view()[j].1,
            decreases self.entries@.len() - i,
        {
            assert(self.entries_view()[i as int] == entry_view(self.entries@[i as int]));
            if str_eq(self.entries[i].0.as_str(), label) {
                assert(self.entries_view()[i as int].0 == label@);
                return self.entries[i].1;
            }
            i = i + 1;
        }
        assert(!self.ids().contains_key(label@)) by {
            if self.ids().contains_key(label@) {
                let j = choose|j: int| 0 <= j < self.entries_view().len() && self.entries_view()[j].0 == label@;
                assert(self.entries_view()[j].0 != label@);
            }
        }
        let drawn = random_id();
        let id = if self.id_used(drawn) {
            self.unused_id()
        } else {
            drawn
        };
        assert forall|j: int| 0 <= j < self.entries_view().len() implies (#[trigger] self.entries_view()[j]).1 != id by {}
        let ghost before = self.entries_view();
        self.entries.push((label.to_owned(), id));
        assert(self.entries_view() =~= before.push((label@, id)));
        assert(self.entries_view().drop_last() =~= before);
        proof {
            let s = self.entries_view();
            assert forall|a: int, b: int| 0 <= a < s.len() && 0 <= b < s.len() && a != b implies #[trigger] s[a].0 != #[trigger] s[b].0 by {
                if a < before.len() && b < before.len() {
                    assert(s[a] == before[a] && s[b] == before[b]);
                } else if a < before.len() {
                    assert(s[a] == before[a]);
                } else if b < before.len() {
                    assert(s[b] == before[b]);
                }
            }
            assert forall|a: int, b: int| 0 <= a < s.len() && 0 <= b < s.len() && a != b implies #[trigger] s[a].1 != #[trigger] s[b].1 by {
                if a < before.len() && b < before.len() {
                    assert(s[a] == before[a] && s[b] == before[b]);
                } else if a < before.len() {
                    assert(s[a] == before[a]);
                } else if b < before.len() {
                    assert(s[b] == before[b]);
                }
            }
            lemma_ids_of(before);
            assert forall|k: Seq<char>| #[trigger] old(self).ids().contains_key(k) implies old(self).ids()[k] != id by {
                let j = choose|j: int| 0 <= j < before.len() && before[j].0 == k;
                assert(old(self).ids()[before[j].0] == before[j].1);
            }
        }
        id
    }
}

// ---------------------------------------------------------------------------
// What a relabelled document is

/// `r` is `t` with each blank node replaced by the numerical blank node that
/// `ids` gives its label.
pub open spec fn relabeled_term(t: Term, r: Term, ids: Map<Seq<char>, u128>) -> bool
    decreases t,
{
    match t {
        Term::BlankNode(b) => r matches Term::BlankNode(c) && ids.contains_key(b.id@) && c.id@
            == hex_format(ids[b.id@] as nat),
        Term::Triple(tr) => r matches Term::Triple(rt) && relabeled_term(tr.subject, rt.subject, ids)
            && rt.predicate == tr.predicate && relabeled_term(tr.object, rt.object, ids),
        _ => r == t,
    }
}

/// `r` is the graph name `g` with a blank node replaced as `ids` says.
pub open spec fn relabeled_graph_name(g: GraphName, r: GraphName, ids: Map<Seq<char>, u128>) -> bool {
    match g {
        GraphName::BlankNode(b) => r matches GraphName::BlankNode(c) && ids.contains_key(b.id@)
            && c.id@ == hex_format(ids[b.id@] as nat),
        _ => r == g,
    }
}

/// `r` is the quad `q` with its blank nodes replaced as `ids` says.
pub open spec fn relabeled_quad(q: Quad, r: Quad, ids: Map<Seq<char>, u128>) -> bool {
    &&& relabeled_term(q.subject, r.subject, ids)
    &&& r.predicate == q.predicate
    &&& relabeled_term(q.object, r.object, ids)
    &&& relabeled_graph_name(q.graph_name, r.graph_name, ids)
}

/// `rs` are the quads `qs`, in order, with their blank nodes replaced as
/// `ids` says.
pub open spec fn relabeled_quads(qs: Seq<Quad>, rs: Seq<Quad>, ids: Map<Seq<char>, u128>) -> bool {
    rs.len() == qs.len() && forall|i: int| 0 <= i < qs.len() ==> relabeled_quad(#[trigger] qs[i], rs[i], ids)
}

/// `rs` are the quads of a document, in order, with the blank nodes of each
/// label replaced by one fresh numerical blank node.
pub open spec fn loaded_quads(qs: Seq<Quad>, rs: Seq<Quad>) -> bool {
    exists|ids: Map<Seq<char>, u128>| #[trigger] relabeled_quads(qs, rs, ids) && ids_injective(ids)
}

/// `r` is the triple `t` in the graph `g`, with the blank nodes of the
/// triple replaced as `ids` says; the graph name stays as it is.
pub open spec fn relabeled_triple_in(t: Triple, g: GraphName, r: Quad, ids: Map<Seq<char>, u128>) -> bool {
    &&& relabeled_term(t.subject, r.subject, ids)
    &&& r.predicate == t.predicate
    &&& relabeled_term(t.object, r.object, ids)
    &&& r.graph_name == g
}

/// `rs` are the triples `ts`, in order, in the graph `g`, with their blank
/// nodes replaced as `ids` says.
pub open spec fn relabeled_triples(ts: Seq<Triple>, g: GraphName, rs: Seq<Quad>, ids: Map<Seq<char>, u128>) -> bool {
    rs.len() == ts.len() && forall|i: int| 0 <= i < ts.len() ==> relabeled_triple_in(#[trigger] ts[i], g, rs[i], ids)
}

/// `rs` are the triples of a document, in order, in the graph `g`, with the
/// blank nodes of each label replaced by one fresh numerical blank node.
pub open spec fn loaded_triples(ts: Seq<Triple>, g: GraphName, rs: Seq<Quad>) -> bool {
    exists|ids: Map<Seq<char>, u128>| #[trigger] relabeled_triples(ts, g, rs, ids) && ids_injective(ids)
}

proof fn lemma_relabeled_term_grows(t: Term, r: Term, m: Map<Seq<char>, u128>, m2: Map<Seq<char>, u128>)
    requires
        relabeled_term(t, r, m),
        m.submap_of(m2),
    ensures
        relabeled_term(t, r, m2),
    decreases t,
{
    match t {
        Term::BlankNode(b) => {
            assert(m.dom().contains(b.id@) && m2.dom().contains(b.id@));
        },
        Term::Triple(tr) => {
            if let Term::Triple(rt) = r {
                lemma_relabeled_term_grows(tr.subject, rt.subject, m, m2);
                lemma_relabeled_term_grows(tr.object, rt.object, m, m2);
            }
        },
        _ => {},
    }
}

proof fn lemma_relabeled_quad_grows(q: Quad, r: Quad, m: Map<Seq<char>, u128>, m2: Map<Seq<char>, u128>)
    requires
        relabeled_quad(q, r, m),
        m.submap_of(m2),
    ensures
        relabeled_quad(q, r, m2),
{
    lemma_relabeled_term_grows(q.subject, r.subject, m, m2);
    lemma_relabeled_term_grows(q.object, r.object, m, m2);
    if let GraphName::BlankNode(b) = q.graph_name {
        assert(m.dom().contains(b.id@) && m2.dom().contains(b.id@));
    }
}

// ---------------------------------------------------------------------------
// Relabelling

fn fresh_blank_node(map: &mut BlankNodeMap, b: &BlankNode) -> (r: BlankNode)
    requires
        old(map).wf(),
    ensures
        final(map).wf(),
        old(map).ids().submap_of(final(map).ids()),
        final(map).ids().contains_key(b.id@),
        r.id@ == hex_format(final(map).ids()[b.id@] as nat),
{
    let id = map.id_for(b.as_str());
    BlankNode::new(numerical_blank_node_str(id))
}

fn relabel_term(map: &mut BlankNodeMap, t: &Term) -> (r: Term)
    requires
        old(map).wf(),
    ensures
        final(map).wf(),
        old(map).ids().submap_of(final(map).ids()),
        relabeled_term(*t, r, final(map).ids()),
    decreases t,
{
    match t {
        Term::BlankNode(b) => Term::BlankNode(fresh_blank_node(map, b)),
        Term::Triple(tr) => {
            let subject = relabel_term(map, &tr.subject);
            let ghost m1 = map.ids();
            let object = relabel_term(map, &tr.object);
            proof {
                lemma_relabeled_term_grows(tr.subject, subject, m1, map.ids());
            }
            Term::Triple(
                Box::new(
                    Triple {
                        subject,
                        predicate: NamedNode { iri: tr.predicate.iri.clone() },
                        object,
                    },
                ),
            )
        },
        _ => t.duplicate(),
    }
}

fn relabel_graph_name(map: &mut BlankNodeMap, g: &GraphName) -> (r: GraphName)
    requires
        old(map).wf(),
    ensures
        final(map).wf(),
        old(map).ids().submap_of(final(map).ids()),
        relabeled_graph_name(*g, r, final(map).ids()),
{
    match g {
        GraphName::BlankNode(b) => GraphName::BlankNode(fresh_blank_node(map, b)),
        _ => g.duplicate(),
    }
}

fn relabel_quad(map: &mut BlankNodeMap, q: &Quad) -> (r: Quad)
    requires
        old(map).wf(),
    ensures
        final(map).wf(),
        old(map).ids().submap_of(final(map).ids()),
        relabeled_quad(*q, r, final(map).ids()),
{
    let subject = relabel_term(map, &q.subject);
    let ghost m1 = map.ids();
    let object = relabel_term(map, &q.object);
    let ghost m2 = map.ids();
    let graph_name = relabel_graph_name(map, &q.graph_name);
    proof {
        lemma_relabeled_term_grows(q.subject, subject, m1, map.ids());
        lemma_relabeled_term_grows(q.object, object, m2, map.ids());
    }
    Quad { subject, predicate: NamedNode { iri: q.predicate.iri.clone() }, object, graph_name }
}

/// The quads of a document with fresh blank nodes.
pub(crate) fn relabel_quads(quads: &Vec<Quad>) -> (r: Vec<Quad>)
    ensures
        loaded_quads(quads@, r@),
{
    let mut map = BlankNodeMap::new();
    let mut out: Vec<Quad> = Vec::new();
    let mut i: usize = 0;
    while i < quads.len()
        invariant
            map.wf(),
            i <= quads@.len(),
            out@.len() == i,
            forall|j: int| 0 <= j < i ==> relabeled_quad(#[trigger] quads@[j], out@[j], map.ids()),
        decreases quads@.len() - i,
    {
        let ghost before = map.ids();
        let q = relabel_quad(&mut map, &quads[i]);
        proof {
            assert forall|j: int| 0 <= j < i implies relabeled_quad(#[trigger] quads@[j], out@[j], map.ids()) by {
                lemma_relabeled_quad_grows(quads@[j], out@[j], before, map.ids());
            }
        }
        out.push(q);
        i = i + 1;
    }
    proof {
        map.lemma_injective();
    }
    assert(relabeled_quads(quads@, out@, map.ids()));
    out
}

/// The triples of a document, in the graph, with fresh blank nodes; the
/// graph name is kept as it is.
pub(crate) fn relabel_triples(triples: &Vec<Triple>, to_graph_name: &GraphName) -> (r: Vec<Quad>)
    ensures
        loaded_triples(triples@, *to_graph_name, r@),
{
    let mut map = BlankNodeMap::new();
    let mut out: Vec<Quad> = Vec::new();
    let mut i: usize = 0;
    while i < triples.len()
        invariant
            map.wf(),
            i <= triples@.len(),
            out@.len() == i,
            forall|j: int| 0 <= j < i ==> relabeled_triple_in(#[trigger] triples@[j], *to_graph_name, out@[j], map.ids()),
        decreases triples@.len() - i,
    {
        let ghost before = map.ids();
        let t = &triples[i];
        let subject = relabel_term(&mut map, &t.subject);
        let ghost m1 = map.ids();
        let object = relabel_term(&mut map, &t.object);
        proof {
            lemma_relabeled_term_grows(t.subject, subject, m1, map.ids());
            assert forall|j: int| 0 <= j < i implies relabeled_triple_in(#[trigger] triples@[j], *to_graph_name, out@[j], map.ids()) by {
                lemma_relabeled_term_grows(triples@[j].subject, out@[j].subject, before, map.ids());
                lemma_relabeled_term_grows(triples@[j].object, out@[j].object, before, map.ids());
            }
        }
        out.push(Quad {
            subject,
            predicate: NamedNode { iri: t.predicate.iri.clone() },
            object,
            graph_name: to_graph_name.duplicate(),
        });
        i = i + 1;
    }
    proof {
        map.lemma_injective();
    }
    assert(relabeled_triples(triples@, *to_graph_name, out@, map.ids()));
    out
}

// ---------------------------------------------------------------------------
// Laws of loading

/// The label of a term that is a blank node.
pub open spec fn term_blank_label(t: Term) -> Option<Seq<char>> {
    match t {
        Term::BlankNode(b) => Some(b.id@),
        _ => None,
    }
}

/// The blank node label at a place of a quad: 0 its subject, 1 its object,
/// 2 its graph name.
pub open spec fn blank_at(q: Quad, k: int) -> Option<Seq<char>> {
    if k == 0 {
        term_blank_label(q.subject)
    } else if k == 1 {
        term_blank_label(q.object)
    } else {
        match q.graph_name {
            GraphName::BlankNode(b) => Some(b.id@),
            _ => None,
        }
    }
}

/// The blank node label at a place of a triple: 0 its subject, 1 its object.
pub open spec fn triple_blank_at(t: Triple, k: int) -> Option<Seq<char>> {
    if k == 0 {
        term_blank_label(t.subject)
    } else {
        term_blank_label(t.object)
    }
}

proof fn lemma_fresh_labels(ids: Map<Seq<char>, u128>, x: Seq<char>, y: Seq<char>)
    requires
        ids_injective(ids),
        ids.contains_key(x),
        ids.contains_key(y),
    ensures
        (hex_format(ids[x] as nat) == hex_format(ids[y] as nat)) <==> (x == y),
{
    crate::term_decoder::lemma_hex_format_injective(ids[x] as nat, ids[y] as nat);
}

/// Loading a document gives its blank nodes fresh labels one for one: two
/// places of its quads hold the same loaded blank node exactly where they
/// hold the same label in the document.
pub proof fn law_loaded_quads_blank_nodes(qs: Seq<Quad>, rs: Seq<Quad>, i: int, j: int, k1: int, k2: int)
    requires
        loaded_quads(qs, rs),
        0 <= i < qs.len(),
        0 <= j < qs.len(),
        0 <= k1 < 3,
        0 <= k2 < 3,
        blank_at(qs[i], k1) is Some,
        blank_at(qs[j], k2) is Some,
    ensures
        blank_at(rs[i], k1) is Some,
        blank_at(rs[j], k2) is Some,
        (blank_at(rs[i], k1) == blank_at(rs[j], k2)) <==> (blank_at(qs[i], k1) == blank_at(qs[j], k2)),
{
    let ids = choose|ids: Map<Seq<char>, u128>| #[trigger] relabeled_quads(qs, rs, ids) && ids_injective(ids);
    assert(relabeled_quad(qs[i], rs[i], ids));
    assert(relabeled_quad(qs[j], rs[j], ids));
    let x = blank_at(qs[i], k1)->0;
    let y = blank_at(qs[j], k2)->0;
    assert(ids.contains_key(x) && blank_at(rs[i], k1) == Some(hex_format(ids[x] as nat)));
    assert(ids.contains_key(y) && blank_at(rs[j], k2) == Some(hex_format(ids[y] as nat)));
    lemma_fresh_labels(ids, x, y);
}

/// Loading the triples of a document gives their blank nodes fresh labels
/// one for one: two places of its triples hold the same loaded blank node
/// exactly where they hold the same label in the document.
pub proof fn law_loaded_triples_blank_nodes(
    ts: Seq<Triple>,
    g: GraphName,
    rs: Seq<Quad>,
    i: int,
    j: int,
    k1: int,
    k2: int,
)
    requires
        loaded_triples(ts, g, rs),
        0 <= i < ts.len(),
        0 <= j < ts.len(),
        0 <= k1 < 2,
        0 <= k2 < 2,
        triple_blank_at(ts[i], k1) is Some,
        triple_blank_at(ts[j], k2) is Some,
    ensures
        blank_at(rs[i], k1) is Some,
        blank_at(rs[j], k2) is Some,
        (blank_at(rs[i], k1) == blank_at(rs[j], k2)) <==> (triple_blank_at(ts[i], k1) == triple_blank_at(ts[j], k2)),
{
    let ids = choose|ids: Map<Seq<char>, u128>| #[trigger] relabeled_triples(ts, g, rs, ids) && ids_injective(ids);
    assert(relabeled_triple_in(ts[i], g, rs[i], ids));
    assert(relabeled_triple_in(ts[j], g, rs[j], ids));
    let x = triple_blank_at(ts[i], k1)->0;
    let y = triple_blank_at(ts[j], k2)->0;
    assert(ids.contains_key(x) && blank_at(rs[i], k1) == Some(hex_format(ids[x] as nat)));
    assert(ids.contains_key(y) && blank_at(rs[j], k2) == Some(hex_format(ids[y] as nat)));
    lemma_fresh_labels(ids, x, y);
}

} // verus!
