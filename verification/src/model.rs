//! The RDF data model as the store takes and gives it: IRIs, blank nodes,
//! literals, terms, triples and quads, each holding its strings.

use vstd::prelude::*;

verus! {

/// The IRI of `rdf:langString`, the datatype of language-tagged strings.
pub const RDF_LANG_STRING: &'static str = "http://www.w3.org/1999/02/22-rdf-syntax-ns#langString";

/// The IRI of `xsd:string`, the datatype of simple literals.
pub const XSD_STRING: &'static str = "http://www.w3.org/2001/XMLSchema#string";

/// An RDF IRI.
#[derive(Debug, PartialEq, Eq)]
pub struct NamedNode {
    pub iri: String,
}

/// An RDF blank node, by its identifier.
#[derive(Debug, PartialEq, Eq)]
pub struct BlankNode {
    pub id: String,
}

/// An RDF literal.
#[derive(Debug, PartialEq, Eq)]
pub enum Literal {
    /// A simple literal, of datatype `xsd:string`.
    Simple(String),
    /// A language-tagged string, of datatype `rdf:langString`.
    LanguageTagged { value: String, language: String },
    /// A literal of another datatype.
    Typed { value: String, datatype: NamedNode },
}

/// An RDF term: an IRI, a blank node, a literal or a quoted triple.
#[derive(Debug, PartialEq, Eq)]
pub enum Term {
    NamedNode(NamedNode),
    BlankNode(BlankNode),
    Literal(Literal),
    Triple(Box<Triple>),
}

/// An RDF triple. Its subject is no literal.
#[derive(Debug, PartialEq, Eq)]
pub struct Triple {
    pub subject: Term,
    pub predicate: NamedNode,
    pub object: Term,
}

/// The name of a graph of a dataset: an IRI, a blank node, or the default graph.
#[derive(Debug, PartialEq, Eq)]
pub enum GraphName {
    NamedNode(NamedNode),
    BlankNode(BlankNode),
    DefaultGraph,
}

/// An IRI or a blank node: what can name a graph.
#[derive(Debug, PartialEq, Eq)]
pub enum NamedOrBlankNode {
    NamedNode(NamedNode),
    BlankNode(BlankNode),
}

/// An RDF quad: a triple in a graph.
#[derive(Debug, PartialEq, Eq)]
pub struct Quad {
    pub subject: Term,
    pub predicate: NamedNode,
    pub object: Term,
    pub graph_name: GraphName,
}

impl NamedNode {
    pub fn new(iri: String) -> (r: Self)
        ensures
            r.iri@ == iri@,
    {
        NamedNode { iri }
    }

    pub fn as_str(&self) -> (r: &str)
        ensures
            r@ == self.iri@,
    {
        self.iri.as_str()
    }

    pub fn duplicate(&self) -> (r: Self)
        ensures
            r.iri@ == self.iri@,
    {
        NamedNode { iri: self.iri.clone() }
    }
}

impl BlankNode {
    pub fn new(id: String) -> (r: Self)
        ensures
            r.id@ == id@,
    {
        BlankNode { id }
    }

    pub fn as_str(&self) -> (r: &str)
        ensures
            r@ == self.id@,
    {
        self.id.as_str()
    }

    pub fn duplicate(&self) -> (r: Self)
        ensures
            r.id@ == self.id@,
    {
        BlankNode { id: self.id.clone() }
    }
}

impl Literal {
    /// The lexical form.
    pub open spec fn value_spec(self) -> Seq<char> {
        match self {
            Literal::Simple(v) => v@,
            Literal::LanguageTagged { value, .. } => value@,
            Literal::Typed { value, .. } => value@,
        }
    }

    /// The datatype IRI.
    pub open spec fn datatype_spec(self) -> Seq<char> {
        match self {
            Literal::Simple(_) => XSD_STRING@,
            Literal::LanguageTagged { .. } => RDF_LANG_STRING@,
            Literal::Typed { datatype, .. } => datatype.iri@,
        }
    }

    /// The language tag of a language-tagged string.
    pub open spec fn language_spec(self) -> Option<Seq<char>> {
        match self {
            Literal::LanguageTagged { language, .. } => Some(language@),
            _ => None,
        }
    }

    /// A simple literal.
    pub fn new_simple_literal(value: String) -> (r: Self)
        ensures
            r == Literal::Simple(value),
    {
        Literal::Simple(value)
    }

    /// A language-tagged string; the tag is not checked.
    pub fn new_language_tagged_literal_unchecked(value: String, language: String) -> (r: Self)
        ensures
            r == (Literal::LanguageTagged { value, language }),
    {
        Literal::LanguageTagged { value, language }
    }

    /// A literal of the given datatype; one of datatype `xsd:string` is a
    /// simple literal.
    pub fn new_typed_literal(value: String, datatype: NamedNode) -> (r: Self)
        ensures
            r.value_spec() == value@,
            r.datatype_spec() == datatype.iri@,
            r.language_spec() is None,
    {
        let dt = crate::utils::chars_of(datatype.as_str());
        if crate::utils::chars_are(&dt, XSD_STRING) {
            Literal::Simple(value)
        } else {
            Literal::Typed { value, datatype }
        }
    }

    pub fn value(&self) -> (r: &str)
        ensures
            r@ == self.value_spec(),
    {
        match self {
            Literal::Simple(v) => v.as_str(),
            Literal::LanguageTagged { value, .. } => value.as_str(),
            Literal::Typed { value, .. } => value.as_str(),
        }
    }

    pub fn datatype(&self) -> (r: &str)
        ensures
            r@ == self.datatype_spec(),
    {
        match self {
            Literal::Simple(_) => XSD_STRING,
            Literal::LanguageTagged { .. } => RDF_LANG_STRING,
            Literal::Typed { datatype, .. } => datatype.as_str(),
        }
    }

    pub fn language(&self) -> (r: Option<&str>)
        ensures
            r is Some <==> self.language_spec() is Some,
            r matches Some(l) ==> self.language_spec() == Some(l@),
    {
        match self {
            Literal::LanguageTagged { language, .. } => Some(language.as_str()),
            _ => None,
        }
    }
}

impl Quad {
    pub fn new(subject: Term, predicate: NamedNode, object: Term, graph_name: GraphName) -> (r: Self)
        ensures
            r == (Quad { subject, predicate, object, graph_name }),
    {
        Quad { subject, predicate, object, graph_name }
    }
}

impl Triple {
    pub fn new(subject: Term, predicate: NamedNode, object: Term) -> (r: Self)
        ensures
            r == (Triple { subject, predicate, object }),
    {
        Triple { subject, predicate, object }
    }

    /// The quad of this triple in the given graph.
    pub fn in_graph(self, graph_name: GraphName) -> (r: Quad)
        ensures
            r == (Quad {
                subject: self.subject,
                predicate: self.predicate,
                object: self.object,
                graph_name,
            }),
    {
        Quad { subject: self.subject, predicate: self.predicate, object: self.object, graph_name }
    }
}

impl Literal {
    pub fn duplicate(&self) -> (r: Self)
        ensures
            r == *self,
    {
        match self {
            Literal::Simple(v) => Literal::Simple(v.clone()),
            Literal::LanguageTagged { value, language } => Literal::LanguageTagged {
                value: value.clone(),
                language: language.clone(),
            },
            Literal::Typed { value, datatype } => Literal::Typed {
                value: value.clone(),
                datatype: NamedNode { iri: datatype.iri.clone() },
            },
        }
    }
}

impl Term {
    pub fn duplicate(&self) -> (r: Self)
        ensures
            r == *self,
        decreases self,
    {
        match self {
            Term::NamedNode(n) => Term::NamedNode(NamedNode { iri: n.iri.clone() }),
            Term::BlankNode(b) => Term::BlankNode(BlankNode { id: b.id.clone() }),
            Term::Literal(l) => Term::Literal(l.duplicate()),
            Term::Triple(t) => Term::Triple(Box::new(t.duplicate())),
        }
    }
}

impl Triple {
    pub fn duplicate(&self) -> (r: Self)
        ensures
            r == *self,
        decreases self,
    {
        Triple {
            subject: self.subject.duplicate(),
            predicate: NamedNode { iri: self.predicate.iri.clone() },
            object: self.object.duplicate(),
        }
    }
}

impl GraphName {
    pub fn duplicate(&self) -> (r: Self)
        ensures
            r == *self,
    {
        match self {
            GraphName::NamedNode(n) => GraphName::NamedNode(NamedNode { iri: n.iri.clone() }),
            GraphName::BlankNode(b) => GraphName::BlankNode(BlankNode { id: b.id.clone() }),
            GraphName::DefaultGraph => GraphName::DefaultGraph,
        }
    }
}

impl Quad {
    pub fn duplicate(&self) -> (r: Self)
        ensures
            r == *self,
    {
        Quad {
            subject: self.subject.duplicate(),
            predicate: NamedNode { iri: self.predicate.iri.clone() },
            object: self.object.duplicate(),
            graph_name: self.graph_name.duplicate(),
        }
    }
}

} // verus!
