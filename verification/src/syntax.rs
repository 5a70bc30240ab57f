//! The RDF file serialization formats: their IRIs, media types and file
//! extensions, and their recognition from a media type.

use vstd::prelude::*;
use crate::utils::chars_of;

verus! {

/// The base type of a media type: what stands before its first `;`, or the
/// whole text where it holds no `;`.
pub open spec fn base_type(m: Seq<char>) -> Seq<char>
    decreases m.len(),
{
    if m.len() == 0 {
        m
    } else if m[0] == ';' {
        Seq::empty()
    } else {
        seq![m[0]] + base_type(m.drop_first())
    }
}

/// A base type followed by parameters: its base type is the text before them.
pub proof fn lemma_base_type_with_parameters(base: Seq<char>, params: Seq<char>)
    requires
        forall|i: int| 0 <= i < base.len() ==> base[i] != ';',
        params.len() == 0 || params[0] == ';',
    ensures
        base_type(base + params) == base,
    decreases base.len(),
{
    if base.len() == 0 {
        assert(base + params == params);
        if params.len() > 0 {
            assert(base_type(params) == Seq::<char>::empty());
        }
        assert(base == Seq::<char>::empty());
    } else {
        assert((base + params).drop_first() == base.drop_first() + params);
        lemma_base_type_with_parameters(base.drop_first(), params);
        assert(seq![base[0]] + base.drop_first() == base);
    }
}

proof fn lemma_base_type_step(m: Seq<char>, i: int)
    requires
        0 <= i < m.len(),
        m[i] != ';',
    ensures
        base_type(m.skip(i)) == seq![m[i]] + base_type(m.skip(i + 1)),
{
    assert(m.skip(i).drop_first() == m.skip(i + 1));
}

/// Whether the first `k` characters of `v` are the characters of `lit`.
fn prefix_is(v: &Vec<char>, k: usize, lit: &str) -> (r: bool)
    requires
        k <= v@.len(),
    ensures
        r == (v@.take(k as int) == lit@),
{
    let l = chars_of(lit);
    if l.len() != k {
        return false;
    }
    let mut i: usize = 0;
    while i < k
        invariant
            k <= v@.len(),
            l@ == lit@,
            l@.len() == k,
            i <= k,
            forall|j: int| 0 <= j < i ==> v@[j] == l@[j],
        decreases k - i,
    {
        if v[i] != l[i] {
            assert(v@.take(k as int)[i as int] != lit@[i as int]);
            return false;
        }
        i = i + 1;
    }
    assert(v@.take(k as int) == lit@);
    true
}

/// The number of characters of a media type's base type.
fn base_type_len(v: &Vec<char>) -> (k: usize)
    ensures
        k <= v@.len(),
        base_type(v@) == v@.take(k as int),
{
    let mut i: usize = 0;
    assert(v@.skip(0) == v@);
    assert(v@.take(0) + base_type(v@) == base_type(v@));
    while i < v.len()
        invariant
            i <= v@.len(),
            base_type(v@) == v@.take(i as int) + base_type(v@.skip(i as int)),
        decreases v@.len() - i,
    {
        if v[i] == ';' {
            assert(base_type(v@.skip(i as int)) == Seq::<char>::empty());
            assert(v@.take(i as int) + Seq::<char>::empty() == v@.take(i as int));
            return i;
        }
        proof {
            lemma_base_type_step(v@, i as int);
            assert(v@.take(i as int) + seq![v@[i as int]] == v@.take(i + 1));
            assert(v@.take(i as int) + (seq![v@[i as int]] + base_type(v@.skip(i + 1)))
                == v@.take(i + 1) + base_type(v@.skip(i + 1)));
        }
        i = i + 1;
    }
    assert(v@.skip(i as int) == Seq::<char>::empty());
    assert(v@.take(i as int) + Seq::<char>::empty() == v@.take(i as int));
    i
}

/// A file serialization format.
///
/// Is implemented by `GraphSyntax` for graph files and `DatasetSyntax` for
/// dataset files.
pub trait FileSyntax: Sized {
    /// Its canonical IRI according to the Unique URIs for file formats registry.
    fn iri(self) -> &'static str;

    /// Its IANA media type.
    fn media_type(self) -> &'static str;

    /// Its IANA-registered file extension.
    fn file_extension(self) -> &'static str;

    /// Looks for a known syntax from a media type.
    fn from_mime_type(media_type: &str) -> Option<Self>;
}

/// RDF graph serialization formats.
#[derive(PartialEq, Eq, Structural, Debug, Clone, Copy, Hash)]
pub enum GraphSyntax {
    /// N-Triples
    NTriples,
    /// Turtle
    Turtle,
    /// RDF XML
    RdfXml,
}

impl GraphSyntax {
    pub open spec fn iri_spec(self) -> Seq<char> {
        match self {
            GraphSyntax::NTriples => "http://www.w3.org/ns/formats/N-Triples"@,
            GraphSyntax::Turtle => "http://www.w3.org/ns/formats/Turtle"@,
            GraphSyntax::RdfXml => "http://www.w3.org/ns/formats/RDF_XML"@,
        }
    }

    pub open spec fn media_type_spec(self) -> Seq<char> {
        match self {
            GraphSyntax::NTriples => "application/n-triples"@,
            GraphSyntax::Turtle => "text/turtle"@,
            GraphSyntax::RdfXml => "application/rdf+xml"@,
        }
    }

    pub open spec fn file_extension_spec(self) -> Seq<char> {
        match self {
            GraphSyntax::NTriples => "nt"@,
            GraphSyntax::Turtle => "ttl"@,
            GraphSyntax::RdfXml => "rdf"@,
        }
    }

    /// The syntax that a base media type names, if any.
    pub open spec fn from_base_type(b: Seq<char>) -> Option<GraphSyntax> {
        if b == "application/n-triples"@ || b == "text/plain"@ {
            Some(GraphSyntax::NTriples)
        } else if b == "text/turtle"@ || b == "application/turtle"@ || b == "application/x-turtle"@ {
            Some(GraphSyntax::Turtle)
        } else if b == "application/rdf+xml"@ || b == "application/xml"@ || b == "text/xml"@ {
            Some(GraphSyntax::RdfXml)
        } else {
            None
        }
    }
}

impl FileSyntax for GraphSyntax {
    fn iri(self) -> (r: &'static str)
        ensures
            r@ == self.iri_spec(),
    {
        match self {
            GraphSyntax::NTriples => "http://www.w3.org/ns/formats/N-Triples",
            GraphSyntax::Turtle => "http://www.w3.org/ns/formats/Turtle",
            GraphSyntax::RdfXml => "http://www.w3.org/ns/formats/RDF_XML",
        }
    }

    fn media_type(self) -> (r: &'static str)
        ensures
            r@ == self.media_type_spec(),
    {
        match self {
            GraphSyntax::NTriples => "application/n-triples",
            GraphSyntax::Turtle => "text/turtle",
            GraphSyntax::RdfXml => "application/rdf+xml",
        }
    }

    fn file_extension(self) -> (r: &'static str)
        ensures
            r@ == self.file_extension_spec(),
    {
        match self {
            GraphSyntax::NTriples => "nt",
            GraphSyntax::Turtle => "ttl",
            GraphSyntax::RdfXml => "rdf",
        }
    }

    fn from_mime_type(media_type: &str) -> (r: Option<Self>)
        ensures
            r == GraphSyntax::from_base_type(base_type(media_type@)),
    {
        let v = chars_of(media_type);
        let k = base_type_len(&v);
        if prefix_is(&v, k, "application/n-triples") || prefix_is(&v, k, "text/plain") {
            Some(GraphSyntax::NTriples)
        } else if prefix_is(&v, k, "text/turtle") || prefix_is(&v, k, "application/turtle")
            || prefix_is(&v, k, "application/x-turtle") {
            Some(GraphSyntax::Turtle)
        } else if prefix_is(&v, k, "application/rdf+xml") || prefix_is(&v, k, "application/xml")
            || prefix_is(&v, k, "text/xml") {
            Some(GraphSyntax::RdfXml)
        } else {
            None
        }
    }
}

/// RDF dataset serialization formats.
#[derive(PartialEq, Eq, Structural, Debug, Clone, Copy, Hash)]
pub enum DatasetSyntax {
    /// N-Quads
    NQuads,
    /// TriG
    TriG,
}

impl DatasetSyntax {
    pub open spec fn iri_spec(self) -> Seq<char> {
        match self {
            DatasetSyntax::NQuads => "http://www.w3.org/ns/formats/N-Quads"@,
            DatasetSyntax::TriG => "http://www.w3.org/ns/formats/TriG"@,
        }
    }

    pub open spec fn media_type_spec(self) -> Seq<char> {
        match self {
            DatasetSyntax::NQuads => "application/n-quads"@,
            DatasetSyntax::TriG => "application/trig"@,
        }
    }

    pub open spec fn file_extension_spec(self) -> Seq<char> {
        match self {
            DatasetSyntax::NQuads => "nq"@,
            DatasetSyntax::TriG => "trig"@,
        }
    }

    /// The syntax that a base media type names, if any.
    pub open spec fn from_base_type(b: Seq<char>) -> Option<DatasetSyntax> {
        if b == "application/n-quads"@ || b == "text/x-nquads"@ || b == "text/nquads"@ {
            Some(DatasetSyntax::NQuads)
        } else if b == "application/trig"@ || b == "application/x-trig"@ {
            Some(DatasetSyntax::TriG)
        } else {
            None
        }
    }
}

impl FileSyntax for DatasetSyntax {
    fn iri(self) -> (r: &'static str)
        ensures
            r@ == self.iri_spec(),
    {
        match self {
            DatasetSyntax::NQuads => "http://www.w3.org/ns/formats/N-Quads",
            DatasetSyntax::TriG => "http://www.w3.org/ns/formats/TriG",
        }
    }

    fn media_type(self) -> (r: &'static str)
        ensures
            r@ == self.media_type_spec(),
    {
        match self {
            DatasetSyntax::NQuads => "application/n-quads",
            DatasetSyntax::TriG => "application/trig",
        }
    }

    fn file_extension(self) -> (r: &'static str)
        ensures
            r@ == self.file_extension_spec(),
    {
        match self {
            DatasetSyntax::NQuads => "nq",
            DatasetSyntax::TriG => "trig",
        }
    }

    fn from_mime_type(media_type: &str) -> (r: Option<Self>)
        ensures
            r == DatasetSyntax::from_base_type(base_type(media_type@)),
    {
        let v = chars_of(media_type);
        let k = base_type_len(&v);
        if prefix_is(&v, k, "application/n-quads") || prefix_is(&v, k, "text/x-nquads")
            || prefix_is(&v, k, "text/nquads") {
            Some(DatasetSyntax::NQuads)
        } else if prefix_is(&v, k, "application/trig") || prefix_is(&v, k, "application/x-trig") {
            Some(DatasetSyntax::TriG)
        } else {
            None
        }
    }
}

/// A graph syntax is recognized from its own media type, also where
/// parameters follow it.
pub proof fn lemma_graph_syntax_media_type_roundtrip(x: GraphSyntax, params: Seq<char>)
    requires
        params.len() == 0 || params[0] == ';',
    ensures
        GraphSyntax::from_base_type(base_type(x.media_type_spec() + params)) == Some(x),
{
    reveal_strlit("application/n-triples");
    reveal_strlit("text/plain");
    reveal_strlit("text/turtle");
    reveal_strlit("application/turtle");
    reveal_strlit("application/x-turtle");
    reveal_strlit("application/rdf+xml");
    reveal_strlit("application/xml");
    reveal_strlit("text/xml");
    lemma_base_type_with_parameters(x.media_type_spec(), params);
    match x {
        GraphSyntax::NTriples => {
            assert("application/n-triples"@ != "text/plain"@);
        },
        GraphSyntax::Turtle => {
            assert("text/turtle"@ != "application/n-triples"@);
            assert("text/turtle"@ != "text/plain"@);
        },
        GraphSyntax::RdfXml => {
            assert("application/rdf+xml"@ != "application/n-triples"@);
            assert("application/rdf+xml"@ != "text/plain"@);
            assert("application/rdf+xml"@ != "text/turtle"@);
            assert("application/rdf+xml"@ != "application/turtle"@);
            assert("application/rdf+xml"@ != "application/x-turtle"@);
        },
    }
}

/// A dataset syntax is recognized from its own media type, also where
/// parameters follow it.
pub proof fn lemma_dataset_syntax_media_type_roundtrip(x: DatasetSyntax, params: Seq<char>)
    requires
        params.len() == 0 || params[0] == ';',
    ensures
        DatasetSyntax::from_base_type(base_type(x.media_type_spec() + params)) == Some(x),
{
    reveal_strlit("application/n-quads");
    reveal_strlit("text/x-nquads");
    reveal_strlit("text/nquads");
    reveal_strlit("application/trig");
    reveal_strlit("application/x-trig");
    lemma_base_type_with_parameters(x.media_type_spec(), params);
    match x {
        DatasetSyntax::NQuads => {},
        DatasetSyntax::TriG => {
            assert("application/trig"@ != "application/n-quads"@);
            assert("application/trig"@ != "text/x-nquads"@);
            assert("application/trig"@ != "text/nquads"@);
        },
    }
}

/// The file extension that the IANA media type registrations give for the
/// RDF serializations: `application/n-triples` `.nt`, `text/turtle` `.ttl`,
/// `application/rdf+xml` `.rdf`, `application/n-quads` `.nq`,
/// `application/trig` `.trig`.
pub open spec fn registered_extension(media_type: Seq<char>) -> Option<Seq<char>> {
    if media_type == "application/n-triples"@ {
        Some("nt"@)
    } else if media_type == "text/turtle"@ {
        Some("ttl"@)
    } else if media_type == "application/rdf+xml"@ {
        Some("rdf"@)
    } else if media_type == "application/n-quads"@ {
        Some("nq"@)
    } else if media_type == "application/trig"@ {
        Some("trig"@)
    } else {
        None
    }
}

/// Every graph syntax has the file extension registered with its media
/// type.
pub proof fn law_graph_syntax_extension_registered(x: GraphSyntax)
    ensures
        registered_extension(x.media_type_spec()) == Some(x.file_extension_spec()),
{
    reveal_strlit("application/n-triples");
    reveal_strlit("text/turtle");
    reveal_strlit("application/rdf+xml");
    reveal_strlit("nt");
    reveal_strlit("ttl");
    reveal_strlit("rdf");
    match x {
        GraphSyntax::NTriples => {},
        GraphSyntax::Turtle => {
            assert("text/turtle"@.len() != "application/n-triples"@.len());
        },
        GraphSyntax::RdfXml => {
            assert("application/rdf+xml"@.len() != "application/n-triples"@.len());
            assert("application/rdf+xml"@.len() != "text/turtle"@.len());
        },
    }
}

/// Every dataset syntax has the file extension registered with its media
/// type: `.nq` for N-Quads, `.trig` for TriG.
pub proof fn law_dataset_syntax_extension_registered(x: DatasetSyntax)
    ensures
        registered_extension(x.media_type_spec()) == Some(x.file_extension_spec()),
{
    reveal_strlit("application/n-triples");
    reveal_strlit("text/turtle");
    reveal_strlit("application/rdf+xml");
    reveal_strlit("application/n-quads");
    reveal_strlit("application/trig");
    reveal_strlit("nq");
    reveal_strlit("trig");
    match x {
        DatasetSyntax::NQuads => {
            assert("application/n-quads"@.len() != "application/n-triples"@.len());
            assert("application/n-quads"@.len() != "text/turtle"@.len());
            assert("application/n-quads"@[12] != "application/rdf+xml"@[12]);
        },
        DatasetSyntax::TriG => {
            assert("application/trig"@.len() != "application/n-triples"@.len());
            assert("application/trig"@.len() != "text/turtle"@.len());
            assert("application/trig"@.len() != "application/rdf+xml"@.len());
            assert("application/trig"@.len() != "application/n-quads"@.len());
        },
    }
}

/// The IRI that the W3C registry of unique URIs for file formats gives to
/// the RDF serialization of a media type.
pub open spec fn registered_format_iri(media_type: Seq<char>) -> Option<Seq<char>> {
    if media_type == "application/n-triples"@ {
        Some("http://www.w3.org/ns/formats/N-Triples"@)
    } else if media_type == "text/turtle"@ {
        Some("http://www.w3.org/ns/formats/Turtle"@)
    } else if media_type == "application/rdf+xml"@ {
        Some("http://www.w3.org/ns/formats/RDF_XML"@)
    } else if media_type == "application/n-quads"@ {
        Some("http://www.w3.org/ns/formats/N-Quads"@)
    } else if media_type == "application/trig"@ {
        Some("http://www.w3.org/ns/formats/TriG"@)
    } else {
        None
    }
}

/// The IRI of a graph syntax is the one the W3C registry gives to its media
/// type.
pub proof fn law_graph_syntax_iri_registered(x: GraphSyntax)
    ensures
        registered_format_iri(x.media_type_spec()) == Some(x.iri_spec()),
{
    reveal_strlit("application/n-triples");
    reveal_strlit("text/turtle");
    reveal_strlit("application/rdf+xml");
    match x {
        GraphSyntax::NTriples => {},
        GraphSyntax::Turtle => {
            assert("text/turtle"@.len() != "application/n-triples"@.len());
        },
        GraphSyntax::RdfXml => {
            assert("application/rdf+xml"@.len() != "application/n-triples"@.len());
            assert("application/rdf+xml"@.len() != "text/turtle"@.len());
        },
    }
}

/// The IRI of a dataset syntax is the one the W3C registry gives to its
/// media type.
pub proof fn law_dataset_syntax_iri_registered(x: DatasetSyntax)
    ensures
        registered_format_iri(x.media_type_spec()) == Some(x.iri_spec()),
{
    reveal_strlit("application/n-triples");
    reveal_strlit("text/turtle");
    reveal_strlit("application/rdf+xml");
    reveal_strlit("application/n-quads");
    reveal_strlit("application/trig");
    match x {
        DatasetSyntax::NQuads => {
            assert("application/n-quads"@.len() != "application/n-triples"@.len());
            assert("application/n-quads"@.len() != "text/turtle"@.len());
            assert("application/n-quads"@[12] != "application/rdf+xml"@[12]);
        },
        DatasetSyntax::TriG => {
            assert("application/trig"@.len() != "application/n-triples"@.len());
            assert("application/trig"@.len() != "text/turtle"@.len());
            assert("application/trig"@.len() != "application/rdf+xml"@.len());
            assert("application/trig"@.len() != "application/n-quads"@.len());
        },
    }
}

} // verus!
