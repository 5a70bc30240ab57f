//! The compact encoding of RDF terms: short strings are stored inline, long
//! ones by their hash, and values of the known XSD datatypes by their binary
//! form.

use vstd::prelude::*;
use crate::small_string::SmallString;
use crate::str_hash::StrHash;
use crate::backend::{compare_bytes, Cmp};
use crate::endian::lemma_array_view_injective;
use crate::xsd::{double_bytes_eq, double_ieee_eq, double_is_nan, double_is_nan_bits, float_bytes_eq, float_ieee_eq, float_is_nan, float_is_nan_bits};

verus! {

/// An encoded RDF term (or the default graph marker).
#[derive(Debug)]
pub enum EncodedTerm {
    DefaultGraph,
    NamedNode { iri_id: StrHash },
    NumericalBlankNode { id: u128 },
    SmallBlankNode(SmallString),
    BigBlankNode { id_id: StrHash },
    SmallStringLiteral(SmallString),
    BigStringLiteral { value_id: StrHash },
    SmallSmallLangStringLiteral { value: SmallString, language: SmallString },
    SmallBigLangStringLiteral { value: SmallString, language_id: StrHash },
    BigSmallLangStringLiteral { value_id: StrHash, language: SmallString },
    BigBigLangStringLiteral { value_id: StrHash, language_id: StrHash },
    SmallTypedLiteral { value: SmallString, datatype_id: StrHash },
    BigTypedLiteral { value_id: StrHash, datatype_id: StrHash },
    BooleanLiteral(bool),
    /// An `xsd:float`, by its 4 big-endian IEEE 754 bytes.
    FloatLiteral([u8; 4]),
    /// An `xsd:double`, by its 8 big-endian IEEE 754 bytes.
    DoubleLiteral([u8; 8]),
    IntegerLiteral(i64),
    /// An `xsd:decimal`, by its 16-byte binary form.
    DecimalLiteral([u8; 16]),
    /// An `xsd:dateTime`, by its 18-byte binary form.
    DateTimeLiteral([u8; 18]),
    /// An `xsd:time`, by its 18-byte binary form.
    TimeLiteral([u8; 18]),
    /// An `xsd:date`, by its 18-byte binary form.
    DateLiteral([u8; 18]),
    /// An `xsd:gYearMonth`, by its 18-byte binary form.
    GYearMonthLiteral([u8; 18]),
    /// An `xsd:gYear`, by its 18-byte binary form.
    GYearLiteral([u8; 18]),
    /// An `xsd:gMonthDay`, by its 18-byte binary form.
    GMonthDayLiteral([u8; 18]),
    /// An `xsd:gDay`, by its 18-byte binary form.
    GDayLiteral([u8; 18]),
    /// An `xsd:gMonth`, by its 18-byte binary form.
    GMonthLiteral([u8; 18]),
    /// An `xsd:duration`, by its 24-byte binary form.
    DurationLiteral([u8; 24]),
    /// An `xsd:yearMonthDuration`, by its 8-byte binary form.
    YearMonthDurationLiteral([u8; 8]),
    /// An `xsd:dayTimeDuration`, by its 16-byte binary form.
    DayTimeDurationLiteral([u8; 16]),
    Triple(Box<EncodedTriple>),
}

/// An encoded RDF triple.
#[derive(Debug)]
pub struct EncodedTriple {
    pub subject: EncodedTerm,
    pub predicate: EncodedTerm,
    pub object: EncodedTerm,
}

/// An encoded RDF quad; the graph name is `DefaultGraph` for the default graph.
#[derive(Debug)]
pub struct EncodedQuad {
    pub subject: EncodedTerm,
    pub predicate: EncodedTerm,
    pub object: EncodedTerm,
    pub graph_name: EncodedTerm,
}

/// Whether every inline string of the term holds valid stored bytes and the
/// default graph marker occurs nowhere but at the top.
pub open spec fn term_wf(t: EncodedTerm) -> bool
    decreases t,
{
    match t {
        EncodedTerm::SmallBlankNode(s) => s.wf(),
        EncodedTerm::SmallStringLiteral(s) => s.wf(),
        EncodedTerm::SmallSmallLangStringLiteral { value, language } => value.wf() && language.wf(),
        EncodedTerm::SmallBigLangStringLiteral { value, .. } => value.wf(),
        EncodedTerm::BigSmallLangStringLiteral { language, .. } => language.wf(),
        EncodedTerm::SmallTypedLiteral { value, .. } => value.wf(),
        EncodedTerm::Triple(t) => term_wf(t.subject) && term_wf(t.predicate) && term_wf(t.object)
            && !(t.subject is DefaultGraph) && !(t.predicate is DefaultGraph)
            && !(t.object is DefaultGraph),
        _ => true,
    }
}

pub open spec fn spec_is_named_node(t: EncodedTerm) -> bool {
    t is NamedNode
}

pub open spec fn spec_is_blank_node(t: EncodedTerm) -> bool {
    t is NumericalBlankNode || t is SmallBlankNode || t is BigBlankNode
}

pub open spec fn spec_is_literal(t: EncodedTerm) -> bool {
    !(t is DefaultGraph || t is NamedNode || spec_is_blank_node(t) || t is Triple)
}

impl EncodedTerm {
    pub fn is_named_node(&self) -> (r: bool)
        ensures
            r == spec_is_named_node(*self),
    {
        matches!(self, Self::NamedNode { .. })
    }

    pub fn is_blank_node(&self) -> (r: bool)
        ensures
            r == spec_is_blank_node(*self),
    {
        matches!(
            self,
            Self::NumericalBlankNode { .. } | Self::SmallBlankNode { .. } | Self::BigBlankNode { .. }
        )
    }

    pub fn is_literal(&self) -> (r: bool)
        ensures
            r == spec_is_literal(*self),
    {
        match self {
            Self::DefaultGraph => false,
            Self::NamedNode { .. } => false,
            Self::NumericalBlankNode { .. } => false,
            Self::SmallBlankNode(_) => false,
            Self::BigBlankNode { .. } => false,
            Self::Triple(_) => false,
            _ => true,
        }
    }

    pub fn is_unknown_typed_literal(&self) -> (r: bool)
        ensures
            r == (*self is SmallTypedLiteral || *self is BigTypedLiteral),
    {
        matches!(self, Self::SmallTypedLiteral { .. } | Self::BigTypedLiteral { .. })
    }

    pub fn is_default_graph(&self) -> (r: bool)
        ensures
            r == (*self is DefaultGraph),
    {
        matches!(self, Self::DefaultGraph)
    }

    pub fn is_triple(&self) -> (r: bool)
        ensures
            r == (*self is Triple),
    {
        matches!(self, Self::Triple { .. })
    }
}

impl EncodedTerm {
    /// A copy of the term.
    pub fn duplicate(&self) -> (r: Self)
        ensures
            r == *self,
        decreases self,
    {
        match self {
            Self::DefaultGraph => Self::DefaultGraph,
            Self::NamedNode { iri_id } => Self::NamedNode { iri_id: *iri_id },
            Self::NumericalBlankNode { id } => Self::NumericalBlankNode { id: *id },
            Self::SmallBlankNode(s) => Self::SmallBlankNode(*s),
            Self::BigBlankNode { id_id } => Self::BigBlankNode { id_id: *id_id },
            Self::SmallStringLiteral(s) => Self::SmallStringLiteral(*s),
            Self::BigStringLiteral { value_id } => Self::BigStringLiteral { value_id: *value_id },
            Self::SmallSmallLangStringLiteral { value, language } => {
                Self::SmallSmallLangStringLiteral { value: *value, language: *language }
            },
            Self::SmallBigLangStringLiteral { value, language_id } => {
                Self::SmallBigLangStringLiteral { value: *value, language_id: *language_id }
            },
            Self::BigSmallLangStringLiteral { value_id, language } => {
                Self::BigSmallLangStringLiteral { value_id: *value_id, language: *language }
            },
            Self::BigBigLangStringLiteral { value_id, language_id } => {
                Self::BigBigLangStringLiteral { value_id: *value_id, language_id: *language_id }
            },
            Self::SmallTypedLiteral { value, datatype_id } => {
                Self::SmallTypedLiteral { value: *value, datatype_id: *datatype_id }
            },
            Self::BigTypedLiteral { value_id, datatype_id } => {
                Self::BigTypedLiteral { value_id: *value_id, datatype_id: *datatype_id }
            },
            Self::BooleanLiteral(v) => Self::BooleanLiteral(*v),
            Self::FloatLiteral(v) => Self::FloatLiteral(*v),
            Self::DoubleLiteral(v) => Self::DoubleLiteral(*v),
            Self::IntegerLiteral(v) => Self::IntegerLiteral(*v),
            Self::DecimalLiteral(v) => Self::DecimalLiteral(*v),
            Self::DateTimeLiteral(v) => Self::DateTimeLiteral(*v),
            Self::TimeLiteral(v) => Self::TimeLiteral(*v),
            Self::DateLiteral(v) => Self::DateLiteral(*v),
            Self::GYearMonthLiteral(v) => Self::GYearMonthLiteral(*v),
            Self::GYearLiteral(v) => Self::GYearLiteral(*v),
            Self::GMonthDayLiteral(v) => Self::GMonthDayLiteral(*v),
            Self::GDayLiteral(v) => Self::GDayLiteral(*v),
            Self::GMonthLiteral(v) => Self::GMonthLiteral(*v),
            Self::DurationLiteral(v) => Self::DurationLiteral(*v),
            Self::YearMonthDurationLiteral(v) => Self::YearMonthDurationLiteral(*v),
            Self::DayTimeDurationLiteral(v) => Self::DayTimeDurationLiteral(*v),
            Self::Triple(t) => Self::Triple(Box::new(t.duplicate())),
        }
    }
}

impl Clone for EncodedTerm {
    fn clone(&self) -> (r: Self)
        ensures
            r == *self,
    {
        self.duplicate()
    }
}

impl EncodedTriple {
    /// A copy of the triple.
    pub fn duplicate(&self) -> (r: Self)
        ensures
            r == *self,
        decreases self,
    {
        EncodedTriple {
            subject: self.subject.duplicate(),
            predicate: self.predicate.duplicate(),
            object: self.object.duplicate(),
        }
    }

    pub fn new(subject: EncodedTerm, predicate: EncodedTerm, object: EncodedTerm) -> (r: Self)
        ensures
            r == (EncodedTriple { subject, predicate, object }),
    {
        Self { subject, predicate, object }
    }
}

impl Clone for EncodedTriple {
    fn clone(&self) -> (r: Self)
        ensures
            r == *self,
    {
        self.duplicate()
    }
}

impl Clone for EncodedQuad {
    fn clone(&self) -> (r: Self)
        ensures
            r == *self,
    {
        EncodedQuad {
            subject: self.subject.duplicate(),
            predicate: self.predicate.duplicate(),
            object: self.object.duplicate(),
            graph_name: self.graph_name.duplicate(),
        }
    }
}

impl EncodedQuad {
    pub fn new(
        subject: EncodedTerm,
        predicate: EncodedTerm,
        object: EncodedTerm,
        graph_name: EncodedTerm,
    ) -> (r: Self)
        ensures
            r == (EncodedQuad { subject, predicate, object, graph_name }),
    {
        Self { subject, predicate, object, graph_name }
    }
}

/// Whether two byte arrays are equal.
fn array_eq<const N: usize>(a: &[u8; N], b: &[u8; N]) -> (r: bool)
    ensures
        r == (a@ == b@),
{
    compare_bytes(a.as_slice(), b.as_slice()) == Cmp::Equal
}

/// When two encoded terms are equal: small strings by their text, floats
/// and doubles by IEEE 754 equality except that a NaN is equal to every NaN,
/// so that equality stays reflexive, everything else by its stored form.
pub open spec fn encoded_term_eq(a: EncodedTerm, b: EncodedTerm) -> bool
    decreases a,
{
    match (a, b) {
        (EncodedTerm::DefaultGraph, EncodedTerm::DefaultGraph) => true,
        (EncodedTerm::NamedNode { iri_id: x }, EncodedTerm::NamedNode { iri_id: y }) => x == y,
        (EncodedTerm::NumericalBlankNode { id: x }, EncodedTerm::NumericalBlankNode { id: y }) => x == y,
        (EncodedTerm::SmallBlankNode(x), EncodedTerm::SmallBlankNode(y)) => x@ == y@,
        (EncodedTerm::BigBlankNode { id_id: x }, EncodedTerm::BigBlankNode { id_id: y }) => x == y,
        (EncodedTerm::SmallStringLiteral(x), EncodedTerm::SmallStringLiteral(y)) => x@ == y@,
        (EncodedTerm::BigStringLiteral { value_id: x }, EncodedTerm::BigStringLiteral { value_id: y }) => x == y,
        (
            EncodedTerm::SmallSmallLangStringLiteral { value: v1, language: l1 },
            EncodedTerm::SmallSmallLangStringLiteral { value: v2, language: l2 },
        ) => v1@ == v2@ && l1@ == l2@,
        (
            EncodedTerm::SmallBigLangStringLiteral { value: v1, language_id: l1 },
            EncodedTerm::SmallBigLangStringLiteral { value: v2, language_id: l2 },
        ) => v1@ == v2@ && l1 == l2,
        (
            EncodedTerm::BigSmallLangStringLiteral { value_id: v1, language: l1 },
            EncodedTerm::BigSmallLangStringLiteral { value_id: v2, language: l2 },
        ) => v1 == v2 && l1@ == l2@,
        (
            EncodedTerm::BigBigLangStringLiteral { value_id: v1, language_id: l1 },
            EncodedTerm::BigBigLangStringLiteral { value_id: v2, language_id: l2 },
        ) => v1 == v2 && l1 == l2,
        (
            EncodedTerm::SmallTypedLiteral { value: v1, datatype_id: d1 },
            EncodedTerm::SmallTypedLiteral { value: v2, datatype_id: d2 },
        ) => v1@ == v2@ && d1 == d2,
        (
            EncodedTerm::BigTypedLiteral { value_id: v1, datatype_id: d1 },
            EncodedTerm::BigTypedLiteral { value_id: v2, datatype_id: d2 },
        ) => v1 == v2 && d1 == d2,
        (EncodedTerm::BooleanLiteral(x), EncodedTerm::BooleanLiteral(y)) => x == y,
        (EncodedTerm::FloatLiteral(x), EncodedTerm::FloatLiteral(y)) => if float_is_nan_bits(x) {
            float_is_nan_bits(y)
        } else {
            float_ieee_eq(x, y)
        },
        (EncodedTerm::DoubleLiteral(x), EncodedTerm::DoubleLiteral(y)) => if double_is_nan_bits(x) {
            double_is_nan_bits(y)
        } else {
            double_ieee_eq(x, y)
        },
        (EncodedTerm::IntegerLiteral(x), EncodedTerm::IntegerLiteral(y)) => x == y,
        (EncodedTerm::DecimalLiteral(x), EncodedTerm::DecimalLiteral(y)) => x@ == y@,
        (EncodedTerm::DateTimeLiteral(x), EncodedTerm::DateTimeLiteral(y)) => x@ == y@,
        (EncodedTerm::TimeLiteral(x), EncodedTerm::TimeLiteral(y)) => x@ == y@,
        (EncodedTerm::DateLiteral(x), EncodedTerm::DateLiteral(y)) => x@ == y@,
        (EncodedTerm::GYearMonthLiteral(x), EncodedTerm::GYearMonthLiteral(y)) => x@ == y@,
        (EncodedTerm::GYearLiteral(x), EncodedTerm::GYearLiteral(y)) => x@ == y@,
        (EncodedTerm::GMonthDayLiteral(x), EncodedTerm::GMonthDayLiteral(y)) => x@ == y@,
        (EncodedTerm::GDayLiteral(x), EncodedTerm::GDayLiteral(y)) => x@ == y@,
        (EncodedTerm::GMonthLiteral(x), EncodedTerm::GMonthLiteral(y)) => x@ == y@,
        (EncodedTerm::DurationLiteral(x), EncodedTerm::DurationLiteral(y)) => x@ == y@,
        (EncodedTerm::YearMonthDurationLiteral(x), EncodedTerm::YearMonthDurationLiteral(y)) => x@ == y@,
        (EncodedTerm::DayTimeDurationLiteral(x), EncodedTerm::DayTimeDurationLiteral(y)) => x@ == y@,
        (EncodedTerm::Triple(x), EncodedTerm::Triple(y)) => encoded_term_eq(x.subject, y.subject)
            && encoded_term_eq(x.predicate, y.predicate) && encoded_term_eq(x.object, y.object),
        _ => false,
    }
}

/// Compares two encoded terms.
fn term_eq(a: &EncodedTerm, b: &EncodedTerm) -> (r: bool)
    ensures
        r == encoded_term_eq(*a, *b),
    decreases a,
{
    match (a, b) {
        (EncodedTerm::DefaultGraph, EncodedTerm::DefaultGraph) => true,
        (EncodedTerm::NamedNode { iri_id: x }, EncodedTerm::NamedNode { iri_id: y }) => *x == *y,
        (EncodedTerm::NumericalBlankNode { id: x }, EncodedTerm::NumericalBlankNode { id: y }) => *x == *y,
        (EncodedTerm::SmallBlankNode(x), EncodedTerm::SmallBlankNode(y)) => *x == *y,
        (EncodedTerm::BigBlankNode { id_id: x }, EncodedTerm::BigBlankNode { id_id: y }) => *x == *y,
        (EncodedTerm::SmallStringLiteral(x), EncodedTerm::SmallStringLiteral(y)) => *x == *y,
        (EncodedTerm::BigStringLiteral { value_id: x }, EncodedTerm::BigStringLiteral { value_id: y }) => *x == *y,
        (
            EncodedTerm::SmallSmallLangStringLiteral { value: v1, language: l1 },
            EncodedTerm::SmallSmallLangStringLiteral { value: v2, language: l2 },
        ) => *v1 == *v2 && *l1 == *l2,
        (
            EncodedTerm::SmallBigLangStringLiteral { value: v1, language_id: l1 },
            EncodedTerm::SmallBigLangStringLiteral { value: v2, language_id: l2 },
        ) => *v1 == *v2 && *l1 == *l2,
        (
            EncodedTerm::BigSmallLangStringLiteral { value_id: v1, language: l1 },
            EncodedTerm::BigSmallLangStringLiteral { value_id: v2, language: l2 },
        ) => *v1 == *v2 && *l1 == *l2,
        (
            EncodedTerm::BigBigLangStringLiteral { value_id: v1, language_id: l1 },
            EncodedTerm::BigBigLangStringLiteral { value_id: v2, language_id: l2 },
        ) => *v1 == *v2 && *l1 == *l2,
        (
            EncodedTerm::SmallTypedLiteral { value: v1, datatype_id: d1 },
            EncodedTerm::SmallTypedLiteral { value: v2, datatype_id: d2 },
        ) => *v1 == *v2 && *d1 == *d2,
        (
            EncodedTerm::BigTypedLiteral { value_id: v1, datatype_id: d1 },
            EncodedTerm::BigTypedLiteral { value_id: v2, datatype_id: d2 },
        ) => *v1 == *v2 && *d1 == *d2,
        (EncodedTerm::BooleanLiteral(x), EncodedTerm::BooleanLiteral(y)) => *x == *y,
        (EncodedTerm::FloatLiteral(x), EncodedTerm::FloatLiteral(y)) => if float_is_nan(*x) {
            float_is_nan(*y)
        } else {
            float_bytes_eq(*x, *y)
        },
        (EncodedTerm::DoubleLiteral(x), EncodedTerm::DoubleLiteral(y)) => if double_is_nan(*x) {
            double_is_nan(*y)
        } else {
            double_bytes_eq(*x, *y)
        },
        (EncodedTerm::IntegerLiteral(x), EncodedTerm::IntegerLiteral(y)) => *x == *y,
        (EncodedTerm::DecimalLiteral(x), EncodedTerm::DecimalLiteral(y)) => array_eq(x, y),
        (EncodedTerm::DateTimeLiteral(x), EncodedTerm::DateTimeLiteral(y)) => array_eq(x, y),
        (EncodedTerm::TimeLiteral(x), EncodedTerm::TimeLiteral(y)) => array_eq(x, y),
        (EncodedTerm::DateLiteral(x), EncodedTerm::DateLiteral(y)) => array_eq(x, y),
        (EncodedTerm::GYearMonthLiteral(x), EncodedTerm::GYearMonthLiteral(y)) => array_eq(x, y),
        (EncodedTerm::GYearLiteral(x), EncodedTerm::GYearLiteral(y)) => array_eq(x, y),
        (EncodedTerm::GMonthDayLiteral(x), EncodedTerm::GMonthDayLiteral(y)) => array_eq(x, y),
        (EncodedTerm::GDayLiteral(x), EncodedTerm::GDayLiteral(y)) => array_eq(x, y),
        (EncodedTerm::GMonthLiteral(x), EncodedTerm::GMonthLiteral(y)) => array_eq(x, y),
        (EncodedTerm::DurationLiteral(x), EncodedTerm::DurationLiteral(y)) => array_eq(x, y),
        (EncodedTerm::YearMonthDurationLiteral(x), EncodedTerm::YearMonthDurationLiteral(y)) => array_eq(x, y),
        (EncodedTerm::DayTimeDurationLiteral(x), EncodedTerm::DayTimeDurationLiteral(y)) => array_eq(x, y),
        (EncodedTerm::Triple(x), EncodedTerm::Triple(y)) => term_eq(&x.subject, &y.subject)
            && term_eq(&x.predicate, &y.predicate) && term_eq(&x.object, &y.object),
        _ => false,
    }
}

impl PartialEq for EncodedTerm {
    fn eq(&self, other: &Self) -> (r: bool) {
        term_eq(self, other)
    }
}

impl vstd::std_specs::cmp::PartialEqSpecImpl for EncodedTerm {
    open spec fn obeys_eq_spec() -> bool {
        true
    }

    open spec fn eq_spec(&self, other: &Self) -> bool {
        encoded_term_eq(*self, *other)
    }
}

impl PartialEq for EncodedTriple {
    fn eq(&self, other: &Self) -> (r: bool) {
        term_eq(&self.subject, &other.subject) && term_eq(&self.predicate, &other.predicate)
            && term_eq(&self.object, &other.object)
    }
}

impl vstd::std_specs::cmp::PartialEqSpecImpl for EncodedTriple {
    open spec fn obeys_eq_spec() -> bool {
        true
    }

    open spec fn eq_spec(&self, other: &Self) -> bool {
        encoded_term_eq(self.subject, other.subject) && encoded_term_eq(self.predicate, other.predicate)
            && encoded_term_eq(self.object, other.object)
    }
}

impl PartialEq for EncodedQuad {
    fn eq(&self, other: &Self) -> (r: bool) {
        term_eq(&self.subject, &other.subject) && term_eq(&self.predicate, &other.predicate)
            && term_eq(&self.object, &other.object) && term_eq(&self.graph_name, &other.graph_name)
    }
}

impl vstd::std_specs::cmp::PartialEqSpecImpl for EncodedQuad {
    open spec fn obeys_eq_spec() -> bool {
        true
    }

    open spec fn eq_spec(&self, other: &Self) -> bool {
        encoded_term_eq(self.subject, other.subject) && encoded_term_eq(self.predicate, other.predicate)
            && encoded_term_eq(self.object, other.object) && encoded_term_eq(self.graph_name, other.graph_name)
    }
}

/// Equality of encoded terms is reflexive: a NaN float or double is equal
/// to any NaN of its type, other floats and doubles by IEEE 754 equality.
pub proof fn lemma_encoded_term_eq_reflexive(t: EncodedTerm)
    ensures
        encoded_term_eq(t, t),
    decreases t,
{
    if let EncodedTerm::Triple(x) = t {
        lemma_encoded_term_eq_reflexive(x.subject);
        lemma_encoded_term_eq_reflexive(x.predicate);
        lemma_encoded_term_eq_reflexive(x.object);
    }
}

} // verus!
