//! Decoding of encoded terms back into RDF terms, with the long strings
//! looked up by their hash in a string store.

use vstd::prelude::*;
use crate::error::{CorruptionError, StorageError};
use crate::model::{
    BlankNode, GraphName, Literal, NamedNode, NamedOrBlankNode, Quad, Term, Triple, RDF_LANG_STRING,
    XSD_STRING,
};
use crate::numeric_encoder::{EncodedQuad, EncodedTerm, EncodedTriple};
use crate::str_hash::StrHash;
use crate::small_string::SmallString;
use vstd::utf8::{encode_utf8, encode_utf8_decode_utf8};
use crate::term_encoder::{
    encode_term_spec, encode_graph_name_spec, encode_quad_spec, fits_small, graph_name_strings_spec,
    hashed, native_literal_encoding, quad_strings_spec, small_of, term_strings_spec,
    encode_literal_term_spec, literal_strings_spec, hex_digit_value, hex_value, numerical_blank_node_id, XSD_BOOLEAN, XSD_DATE, XSD_DATE_TIME,
    XSD_DAY_TIME_DURATION, XSD_DECIMAL, XSD_DOUBLE, XSD_DURATION, XSD_FLOAT, XSD_G_DAY,
    XSD_G_MONTH, XSD_G_MONTH_DAY, XSD_G_YEAR, XSD_G_YEAR_MONTH, XSD_INTEGER, XSD_TIME,
    XSD_YEAR_MONTH_DURATION,
};
use crate::xsd::{
    duration_writable, is_duration_writable, is_timezone_writable, timezone_writable,
    date_lexical, date_time_lexical, day_time_duration_lexical, decimal_lexical, double_lexical,
    duration_lexical, float_lexical, g_day_lexical, g_month_day_lexical, g_month_lexical,
    g_year_lexical, g_year_month_lexical, i64_lexical, i64_lexical_spec, time_lexical,
    xsd_date_lexical, xsd_date_time_lexical, xsd_day_time_duration_lexical, xsd_decimal_lexical,
    xsd_double_lexical, xsd_duration_lexical, xsd_float_lexical, xsd_g_day_lexical,
    xsd_g_month_day_lexical, xsd_g_month_lexical, xsd_g_year_lexical, xsd_g_year_month_lexical,
    xsd_time_lexical, xsd_year_month_duration_lexical, year_month_duration_lexical,
};

verus! {

/// The lowercase hexadecimal digit of a value below 16.
pub open spec fn hex_digit(d: int) -> char {
    if d < 10 {
        (('0' as int) + d) as char
    } else {
        (('a' as int) + d - 10) as char
    }
}

/// The lowercase hexadecimal text of a number, without leading zero.
pub open spec fn hex_format(n: nat) -> Seq<char>
    decreases n,
{
    if n < 16 {
        seq![hex_digit(n as int)]
    } else {
        hex_format(n / 16).push(hex_digit((n % 16) as int))
    }
}

/// Reading back the hexadecimal text of a number gives the number.
pub proof fn lemma_hex_value_of_format(n: nat)
    ensures
        hex_value(hex_format(n)) == Some(n as int),
    decreases n,
{
    let d = (n % 16) as int;
    assert(hex_digit_value(hex_digit(d)) == Some(d));
    let f = hex_format(n);
    if n < 16 {
        assert(d == n);
        assert(f.drop_last() =~= Seq::<char>::empty());
        assert(f.last() == hex_digit(d));
        assert(hex_value(f.drop_last()) == Some(0int));
    } else {
        lemma_hex_value_of_format(n / 16);
        assert(f.drop_last() =~= hex_format(n / 16));
        assert(f.last() == hex_digit(d));
        assert((n / 16) * 16 + n % 16 == n) by (nonlinear_arith);
    }
}

/// Distinct numbers have distinct hexadecimal texts.
pub proof fn lemma_hex_format_injective(a: nat, b: nat)
    ensures
        hex_format(a) == hex_format(b) ==> a == b,
{
    lemma_hex_value_of_format(a);
    lemma_hex_value_of_format(b);
}

proof fn lemma_hex_value_positive(s: Seq<char>)
    requires
        s.len() > 0,
        s[0] != '0',
        hex_value(s) is Some,
    ensures
        hex_value(s)->0 >= 1,
    decreases s.len(),
{
    let t = s.drop_last();
    assert(hex_value(t) is Some && hex_digit_value(s.last()) is Some);
    lemma_hex_value_nonneg(t);
    if s.len() > 1 {
        assert(t[0] == s[0]);
        lemma_hex_value_positive(t);
    } else {
        assert(t.len() == 0);
        assert(hex_value(t) == Some(0int));
        assert(s.last() == s[0]);
    }
}

proof fn lemma_hex_value_nonneg(s: Seq<char>)
    requires
        hex_value(s) is Some,
    ensures
        hex_value(s)->0 >= 0,
    decreases s.len(),
{
    if s.len() > 0 {
        lemma_hex_value_nonneg(s.drop_last());
    }
}

/// The text of the numerical id of a blank node identifier is the identifier.
pub proof fn lemma_hex_format_numerical_id(s: Seq<char>)
    requires
        numerical_blank_node_id(s) is Some,
    ensures
        hex_format(numerical_blank_node_id(s)->0 as nat) == s,
    decreases s.len(),
{
    let n = hex_value(s)->0;
    lemma_hex_value_positive(s);
    let c = s.last();
    let d = hex_digit_value(c)->0;
    assert(hex_digit(d) == c);
    assert(hex_value(s.drop_last()) is Some);
    if s.len() == 1 {
        assert(s.drop_last().len() == 0);
        assert(hex_value(s.drop_last()) == Some(0int));
        assert(n == d);
        assert(hex_format(n as nat) == seq![c]);
        assert(s == seq![c]);
    } else {
        let t = s.drop_last();
        let v = hex_value(t)->0;
        assert(t[0] == s[0]);
        lemma_hex_value_positive(t);
        assert(n == v * 16 + d);
        assert(v <= n) by (nonlinear_arith)
            requires
                n == v * 16 + d,
                v >= 1,
                d >= 0,
        ;
        assert(numerical_blank_node_id(t) == Some(v as u128));
        lemma_hex_format_numerical_id(t);
        assert(n / 16 == v && n % 16 == d) by (nonlinear_arith)
            requires
                n == v * 16 + d,
                0 <= d < 16,
                v >= 1,
        ;
        assert(n >= 16);
        assert(hex_format(n as nat) == hex_format(v as nat).push(c));
        assert(t.push(c) == s);
    }
}

/// `oxrdf::BlankNode::new_from_unique_id(id).as_str()`: the identifier that
/// `oxrdf` writes for a numerical blank node, the lowercase hexadecimal text
/// of the id.
#[verifier::external_body]
pub(crate) fn numerical_blank_node_str(id: u128) -> (r: String)
    ensures
        r@ == hex_format(id as nat),
{
    oxrdf::BlankNode::new_from_unique_id(id).as_str().to_owned()
}

/// A store of strings by their hash.
pub trait StrLookup {
    /// Whether the store is in a consistent state.
    spec fn lookup_wf(&self) -> bool;

    /// The strings of the store, by their hash.
    spec fn str_map(&self) -> Map<StrHash, Seq<char>>;

    /// The string of the hash, if the store has one.
    fn get_str(&self, key: &StrHash) -> (r: Result<Option<String>, StorageError>)
        ensures
            self.lookup_wf() ==> r is Ok,
            self.lookup_wf() ==> (r matches Ok(Some(s)) ==> self.str_map().contains_key(*key) && s@
                == self.str_map()[*key]),
            self.lookup_wf() ==> (r matches Ok(None) ==> !self.str_map().contains_key(*key)),
    ;

    /// Whether the store has a string for the hash.
    fn contains_str(&self, key: &StrHash) -> (r: Result<bool, StorageError>)
        ensures
            self.lookup_wf() ==> r == Ok::<bool, StorageError>(self.str_map().contains_key(*key)),
    ;
}

/// Whether `t` is a literal of the given lexical form and datatype, without
/// language tag.
pub open spec fn literal_is(t: Term, value: Seq<char>, datatype: Seq<char>) -> bool {
    &&& t is Literal
    &&& t->Literal_0.value_spec() == value
    &&& t->Literal_0.datatype_spec() == datatype
    &&& t->Literal_0.language_spec() is None
}

/// Whether `t` is a language-tagged string of the given value and tag.
pub open spec fn lang_literal_is(t: Term, value: Seq<char>, language: Seq<char>) -> bool {
    &&& t is Literal
    &&& t->Literal_0.value_spec() == value
    &&& t->Literal_0.datatype_spec() == RDF_LANG_STRING@
    &&& t->Literal_0.language_spec() == Some(language)
}

/// Whether the string store has every string that decoding the term reads.
pub open spec fn decodable(e: EncodedTerm, strs: Map<StrHash, Seq<char>>) -> bool
    decreases e,
{
    match e {
        EncodedTerm::DefaultGraph => false,
        EncodedTerm::NamedNode { iri_id } => strs.contains_key(iri_id),
        EncodedTerm::BigBlankNode { id_id } => strs.contains_key(id_id),
        EncodedTerm::BigStringLiteral { value_id } => strs.contains_key(value_id),
        EncodedTerm::SmallBigLangStringLiteral { language_id, .. } => strs.contains_key(language_id),
        EncodedTerm::BigSmallLangStringLiteral { value_id, .. } => strs.contains_key(value_id),
        EncodedTerm::BigBigLangStringLiteral { value_id, language_id } => strs.contains_key(value_id)
            && strs.contains_key(language_id),
        EncodedTerm::SmallTypedLiteral { datatype_id, .. } => strs.contains_key(datatype_id),
        EncodedTerm::BigTypedLiteral { value_id, datatype_id } => strs.contains_key(value_id)
            && strs.contains_key(datatype_id),
        EncodedTerm::Triple(tr) => decodable(tr.subject, strs) && decodable(tr.predicate, strs)
            && decodable(tr.object, strs) && !crate::numeric_encoder::spec_is_literal(tr.subject)
            && tr.predicate is NamedNode,
        EncodedTerm::DateTimeLiteral(b) => timezone_writable(b),
        EncodedTerm::TimeLiteral(b) => timezone_writable(b),
        EncodedTerm::DateLiteral(b) => timezone_writable(b),
        EncodedTerm::GYearMonthLiteral(b) => timezone_writable(b),
        EncodedTerm::GYearLiteral(b) => timezone_writable(b),
        EncodedTerm::GMonthDayLiteral(b) => timezone_writable(b),
        EncodedTerm::GDayLiteral(b) => timezone_writable(b),
        EncodedTerm::GMonthLiteral(b) => timezone_writable(b),
        EncodedTerm::DurationLiteral(b) => duration_writable(b),
        _ => true,
    }
}

/// Whether `t` is what the encoded term decodes to, with the strings `strs`.
pub open spec fn decodes_to(e: EncodedTerm, strs: Map<StrHash, Seq<char>>, t: Term) -> bool
    decreases e,
{
    match e {
        EncodedTerm::DefaultGraph => false,
        EncodedTerm::NamedNode { iri_id } => t is NamedNode && t->NamedNode_0.iri@ == strs[iri_id],
        EncodedTerm::NumericalBlankNode { id } => t is BlankNode && t->BlankNode_0.id@ == hex_format(
            id as nat,
        ),
        EncodedTerm::SmallBlankNode(s) => t is BlankNode && t->BlankNode_0.id@ == s@,
        EncodedTerm::BigBlankNode { id_id } => t is BlankNode && t->BlankNode_0.id@ == strs[id_id],
        EncodedTerm::SmallStringLiteral(s) => literal_is(t, s@, XSD_STRING@),
        EncodedTerm::BigStringLiteral { value_id } => literal_is(t, strs[value_id], XSD_STRING@),
        EncodedTerm::SmallSmallLangStringLiteral { value, language } => lang_literal_is(
            t,
            value@,
            language@,
        ),
        EncodedTerm::SmallBigLangStringLiteral { value, language_id } => lang_literal_is(
            t,
            value@,
            strs[language_id],
        ),
        EncodedTerm::BigSmallLangStringLiteral { value_id, language } => lang_literal_is(
            t,
            strs[value_id],
            language@,
        ),
        EncodedTerm::BigBigLangStringLiteral { value_id, language_id } => lang_literal_is(
            t,
            strs[value_id],
            strs[language_id],
        ),
        EncodedTerm::SmallTypedLiteral { value, datatype_id } => literal_is(
            t,
            value@,
            strs[datatype_id],
        ),
        EncodedTerm::BigTypedLiteral { value_id, datatype_id } => literal_is(
            t,
            strs[value_id],
            strs[datatype_id],
        ),
        EncodedTerm::BooleanLiteral(b) => literal_is(
            t,
            if b {
                "true"@
            } else {
                "false"@
            },
            XSD_BOOLEAN@,
        ),
        EncodedTerm::FloatLiteral(b) => literal_is(t, xsd_float_lexical(b), XSD_FLOAT@),
        EncodedTerm::DoubleLiteral(b) => literal_is(t, xsd_double_lexical(b), XSD_DOUBLE@),
        EncodedTerm::IntegerLiteral(i) => literal_is(t, i64_lexical_spec(i), XSD_INTEGER@),
        EncodedTerm::DecimalLiteral(b) => literal_is(t, xsd_decimal_lexical(b), XSD_DECIMAL@),
        EncodedTerm::DateTimeLiteral(b) => literal_is(t, xsd_date_time_lexical(b), XSD_DATE_TIME@),
        EncodedTerm::TimeLiteral(b) => literal_is(t, xsd_time_lexical(b), XSD_TIME@),
        EncodedTerm::DateLiteral(b) => literal_is(t, xsd_date_lexical(b), XSD_DATE@),
        EncodedTerm::GYearMonthLiteral(b) => literal_is(
            t,
            xsd_g_year_month_lexical(b),
            XSD_G_YEAR_MONTH@,
        ),
        EncodedTerm::GYearLiteral(b) => literal_is(t, xsd_g_year_lexical(b), XSD_G_YEAR@),
        EncodedTerm::GMonthDayLiteral(b) => literal_is(
            t,
            xsd_g_month_day_lexical(b),
            XSD_G_MONTH_DAY@,
        ),
        EncodedTerm::GDayLiteral(b) => literal_is(t, xsd_g_day_lexical(b), XSD_G_DAY@),
        EncodedTerm::GMonthLiteral(b) => literal_is(t, xsd_g_month_lexical(b), XSD_G_MONTH@),
        EncodedTerm::DurationLiteral(b) => literal_is(t, xsd_duration_lexical(b), XSD_DURATION@),
        EncodedTerm::YearMonthDurationLiteral(b) => literal_is(
            t,
            xsd_year_month_duration_lexical(b),
            XSD_YEAR_MONTH_DURATION@,
        ),
        EncodedTerm::DayTimeDurationLiteral(b) => literal_is(
            t,
            xsd_day_time_duration_lexical(b),
            XSD_DAY_TIME_DURATION@,
        ),
        EncodedTerm::Triple(tr) => t is Triple && decodes_to(tr.subject, strs, t->Triple_0.subject)
            && decodes_to(
            tr.predicate,
            strs,
            Term::NamedNode(t->Triple_0.predicate),
        ) && decodes_to(tr.object, strs, t->Triple_0.object),
    }
}

/// The string of a hash, which the store must have.
pub fn get_required_str<L: StrLookup>(lookup: &L, id: &StrHash) -> (r: Result<String, StorageError>)
    requires
        lookup.lookup_wf(),
    ensures
        lookup.str_map().contains_key(*id) ==> (r matches Ok(s) && s@ == lookup.str_map()[*id]),
        !lookup.str_map().contains_key(*id) ==> r == Err::<String, StorageError>(
            StorageError::Corruption(CorruptionError::MissingString(*id)),
        ),
{
    match lookup.get_str(id) {
        Ok(Some(s)) => Ok(s),
        Ok(None) => Err(StorageError::Corruption(CorruptionError::MissingString(*id))),
        Err(e) => Err(e),
    }
}

/// The error for a stored value that cannot be written as a lexical form.
fn unwritable_value() -> (r: StorageError)
    ensures
        r is Corruption,
{
    StorageError::Corruption(CorruptionError::Msg("The stored value has no lexical form".to_owned()))
}

/// A literal of the given datatype, as `oxrdf` builds it: one of datatype
/// `xsd:string` is a simple literal.
fn typed_literal(value: String, datatype: &str) -> (r: Term)
    ensures
        literal_is(r, value@, datatype@),
{
    Term::Literal(Literal::new_typed_literal(value, NamedNode::new(datatype.to_owned())))
}

/// Decodes encoded terms, looking long strings up in a string store.
pub struct TermDecoder<'a, S: StrLookup> {
    lookup: &'a S,
}

impl<'a, S: StrLookup> TermDecoder<'a, S> {
    pub closed spec fn strs(self) -> Map<StrHash, Seq<char>> {
        self.lookup.str_map()
    }

    /// Whether the string store is in a consistent state.
    pub closed spec fn wf(self) -> bool {
        self.lookup.lookup_wf()
    }

    pub fn new(lookup: &'a S) -> (r: Self)
        ensures
            r.strs() == lookup.str_map(),
            r.wf() == lookup.lookup_wf(),
    {
        Self { lookup }
    }

    /// Decodes a term.
    pub fn decode_term(&self, encoded: &EncodedTerm) -> (r: Result<Term, StorageError>)
        requires
            self.wf(),
        ensures
            r is Ok <==> decodable(*encoded, self.strs()),
            r matches Ok(t) ==> decodes_to(*encoded, self.strs(), t),
            r matches Err(e) ==> e is Corruption,
        decreases encoded, 0nat,
    {
        match encoded {
            EncodedTerm::DefaultGraph => Err(
                StorageError::Corruption(
                    CorruptionError::Msg("The default graph tag is not a valid term".to_owned()),
                ),
            ),
            EncodedTerm::NamedNode { iri_id } => match get_required_str(self.lookup, iri_id) {
                Ok(iri) => Ok(Term::NamedNode(NamedNode::new(iri))),
                Err(e) => Err(e),
            },
            EncodedTerm::NumericalBlankNode { id } => Ok(
                Term::BlankNode(BlankNode::new(numerical_blank_node_str(*id))),
            ),
            EncodedTerm::SmallBlankNode(id) => Ok(
                Term::BlankNode(BlankNode::new(id.as_str().to_owned())),
            ),
            EncodedTerm::BigBlankNode { id_id } => match get_required_str(self.lookup, id_id) {
                Ok(id) => Ok(Term::BlankNode(BlankNode::new(id))),
                Err(e) => Err(e),
            },
            EncodedTerm::SmallStringLiteral(value) => Ok(
                Term::Literal(Literal::new_simple_literal(value.as_str().to_owned())),
            ),
            EncodedTerm::BigStringLiteral { value_id } => match get_required_str(self.lookup, value_id) {
                Ok(value) => Ok(Term::Literal(Literal::new_simple_literal(value))),
                Err(e) => Err(e),
            },
            EncodedTerm::SmallSmallLangStringLiteral { value, language } => Ok(
                Term::Literal(
                    Literal::new_language_tagged_literal_unchecked(
                        value.as_str().to_owned(),
                        language.as_str().to_owned(),
                    ),
                ),
            ),
            EncodedTerm::SmallBigLangStringLiteral { value, language_id } => match get_required_str(
                self.lookup,
                language_id,
            ) {
                Ok(language) => Ok(
                    Term::Literal(
                        Literal::new_language_tagged_literal_unchecked(value.as_str().to_owned(), language),
                    ),
                ),
                Err(e) => Err(e),
            },
            EncodedTerm::BigSmallLangStringLiteral { value_id, language } => match get_required_str(
                self.lookup,
                value_id,
            ) {
                Ok(value) => Ok(
                    Term::Literal(
                        Literal::new_language_tagged_literal_unchecked(value, language.as_str().to_owned()),
                    ),
                ),
                Err(e) => Err(e),
            },
            EncodedTerm::BigBigLangStringLiteral { value_id, language_id } => {
                let value = match get_required_str(self.lookup, value_id) {
                    Ok(v) => v,
                    Err(e) => return Err(e),
                };
                match get_required_str(self.lookup, language_id) {
                    Ok(language) => Ok(
                        Term::Literal(Literal::new_language_tagged_literal_unchecked(value, language)),
                    ),
                    Err(e) => Err(e),
                }
            },
            EncodedTerm::SmallTypedLiteral { value, datatype_id } => match get_required_str(
                self.lookup,
                datatype_id,
            ) {
                Ok(datatype) => Ok(typed_literal(value.as_str().to_owned(), datatype.as_str())),
                Err(e) => Err(e),
            },
            EncodedTerm::BigTypedLiteral { value_id, datatype_id } => {
                let value = match get_required_str(self.lookup, value_id) {
                    Ok(v) => v,
                    Err(e) => return Err(e),
                };
                match get_required_str(self.lookup, datatype_id) {
                    Ok(datatype) => Ok(typed_literal(value, datatype.as_str())),
                    Err(e) => Err(e),
                }
            },
            EncodedTerm::BooleanLiteral(value) => {
                let lexical = if *value {
                    "true"
                } else {
                    "false"
                };
                Ok(typed_literal(lexical.to_owned(), XSD_BOOLEAN))
            },
            EncodedTerm::FloatLiteral(v) => Ok(typed_literal(float_lexical(*v), XSD_FLOAT)),
            EncodedTerm::DoubleLiteral(v) => Ok(typed_literal(double_lexical(*v), XSD_DOUBLE)),
            EncodedTerm::IntegerLiteral(v) => Ok(typed_literal(i64_lexical(*v), XSD_INTEGER)),
            EncodedTerm::DecimalLiteral(v) => Ok(typed_literal(decimal_lexical(*v), XSD_DECIMAL)),
            EncodedTerm::DateTimeLiteral(v) => if is_timezone_writable(v) {
                Ok(typed_literal(date_time_lexical(*v), XSD_DATE_TIME))
            } else {
                Err(unwritable_value())
            },
            EncodedTerm::TimeLiteral(v) => if is_timezone_writable(v) {
                Ok(typed_literal(time_lexical(*v), XSD_TIME))
            } else {
                Err(unwritable_value())
            },
            EncodedTerm::DateLiteral(v) => if is_timezone_writable(v) {
                Ok(typed_literal(date_lexical(*v), XSD_DATE))
            } else {
                Err(unwritable_value())
            },
            EncodedTerm::GYearMonthLiteral(v) => if is_timezone_writable(v) {
                Ok(typed_literal(g_year_month_lexical(*v), XSD_G_YEAR_MONTH))
            } else {
                Err(unwritable_value())
            },
            EncodedTerm::GYearLiteral(v) => if is_timezone_writable(v) {
                Ok(typed_literal(g_year_lexical(*v), XSD_G_YEAR))
            } else {
                Err(unwritable_value())
            },
            EncodedTerm::GMonthDayLiteral(v) => if is_timezone_writable(v) {
                Ok(typed_literal(g_month_day_lexical(*v), XSD_G_MONTH_DAY))
            } else {
                Err(unwritable_value())
            },
            EncodedTerm::GDayLiteral(v) => if is_timezone_writable(v) {
                Ok(typed_literal(g_day_lexical(*v), XSD_G_DAY))
            } else {
                Err(unwritable_value())
            },
            EncodedTerm::GMonthLiteral(v) => if is_timezone_writable(v) {
                Ok(typed_literal(g_month_lexical(*v), XSD_G_MONTH))
            } else {
                Err(unwritable_value())
            },
            EncodedTerm::DurationLiteral(v) => if is_duration_writable(v) {
                Ok(typed_literal(duration_lexical(*v), XSD_DURATION))
            } else {
                Err(unwritable_value())
            },
            EncodedTerm::YearMonthDurationLiteral(v) => Ok(
                typed_literal(year_month_duration_lexical(*v), XSD_YEAR_MONTH_DURATION),
            ),
            EncodedTerm::DayTimeDurationLiteral(v) => Ok(
                typed_literal(day_time_duration_lexical(*v), XSD_DAY_TIME_DURATION),
            ),
            EncodedTerm::Triple(triple) => match self.decode_triple(triple) {
                Ok(t) => Ok(Term::Triple(Box::new(t))),
                Err(e) => Err(e),
            },
        }
    }

    /// Decodes an IRI.
    pub fn decode_named_node(&self, encoded: &EncodedTerm) -> (r: Result<NamedNode, StorageError>)
        requires
            self.wf(),
        ensures
            r is Ok <==> decodable(*encoded, self.strs()) && encoded is NamedNode,
            r matches Ok(n) ==> decodes_to(*encoded, self.strs(), Term::NamedNode(n)),
            r matches Err(e) ==> e is Corruption,
        decreases encoded, 1nat,
    {
        match self.decode_term(encoded) {
            Ok(Term::NamedNode(n)) => Ok(n),
            Ok(_) => Err(
                StorageError::Corruption(
                    CorruptionError::Msg("A term has been found instead of a named node".to_owned()),
                ),
            ),
            Err(e) => Err(e),
        }
    }

    /// Decodes an IRI or a blank node.
    pub fn decode_named_or_blank_node(&self, encoded: &EncodedTerm) -> (r: Result<
        NamedOrBlankNode,
        StorageError,
    >)
        requires
            self.wf(),
        ensures
            r is Ok <==> decodable(*encoded, self.strs()) && (encoded is NamedNode
                || crate::numeric_encoder::spec_is_blank_node(*encoded)),
            r matches Ok(NamedOrBlankNode::NamedNode(n)) ==> decodes_to(
                *encoded,
                self.strs(),
                Term::NamedNode(n),
            ),
            r matches Ok(NamedOrBlankNode::BlankNode(b)) ==> decodes_to(
                *encoded,
                self.strs(),
                Term::BlankNode(b),
            ),
            r matches Err(e) ==> e is Corruption,
    {
        match self.decode_term(encoded) {
            Ok(Term::NamedNode(n)) => Ok(NamedOrBlankNode::NamedNode(n)),
            Ok(Term::BlankNode(b)) => Ok(NamedOrBlankNode::BlankNode(b)),
            Ok(_) => Err(
                StorageError::Corruption(
                    CorruptionError::Msg(
                        "A literal or a triple has been found instead of a named or blank node".to_owned(),
                    ),
                ),
            ),
            Err(e) => Err(e),
        }
    }

    /// Decodes a triple.
    pub fn decode_triple(&self, encoded: &EncodedTriple) -> (r: Result<Triple, StorageError>)
        requires
            self.wf(),
        ensures
            r is Ok <==> decodable(EncodedTerm::Triple(Box::new(*encoded)), self.strs()),
            r matches Ok(t) ==> decodes_to(
                EncodedTerm::Triple(Box::new(*encoded)),
                self.strs(),
                Term::Triple(Box::new(t)),
            ),
            r matches Err(e) ==> e is Corruption,
        decreases encoded, 2nat,
    {
        let subject = match self.decode_term(&encoded.subject) {
            Ok(t) => t,
            Err(e) => return Err(e),
        };
        if let Term::Literal(_) = subject {
            return Err(
                StorageError::Corruption(
                    CorruptionError::Msg("A literal has been found instead of a subject node".to_owned()),
                ),
            );
        }
        let predicate = match self.decode_named_node(&encoded.predicate) {
            Ok(p) => p,
            Err(e) => return Err(e),
        };
        let object = match self.decode_term(&encoded.object) {
            Ok(t) => t,
            Err(e) => return Err(e),
        };
        Ok(Triple::new(subject, predicate, object))
    }

    /// Decodes a quad.
    pub fn decode_quad(&self, encoded: &EncodedQuad) -> (r: Result<Quad, StorageError>)
        requires
            self.wf(),
        ensures
            r is Ok <==> decodable(EncodedTerm::Triple(Box::new(EncodedTriple {
                subject: encoded.subject,
                predicate: encoded.predicate,
                object: encoded.object,
            })), self.strs()) && (encoded.graph_name is DefaultGraph || (decodable(encoded.graph_name, self.strs())
                && (encoded.graph_name is NamedNode || crate::numeric_encoder::spec_is_blank_node(encoded.graph_name)))),
            r matches Ok(q) ==> quad_decodes_to(*encoded, self.strs(), q),
            r matches Err(e) ==> e is Corruption,
    {
        let triple = EncodedTriple {
            subject: encoded.subject.duplicate(),
            predicate: encoded.predicate.duplicate(),
            object: encoded.object.duplicate(),
        };
        let t = match self.decode_triple(&triple) {
            Ok(t) => t,
            Err(e) => return Err(e),
        };
        let graph_name = if encoded.graph_name.is_default_graph() {
            GraphName::DefaultGraph
        } else {
            match self.decode_named_or_blank_node(&encoded.graph_name) {
                Ok(NamedOrBlankNode::NamedNode(n)) => GraphName::NamedNode(n),
                Ok(NamedOrBlankNode::BlankNode(b)) => GraphName::BlankNode(b),
                Err(e) => return Err(e),
            }
        };
        Ok(t.in_graph(graph_name))
    }
}

/// Whether `q` is what the encoded quad decodes to, with the strings `strs`.
pub open spec fn quad_decodes_to(e: EncodedQuad, strs: Map<StrHash, Seq<char>>, q: Quad) -> bool {
    &&& decodes_to(e.subject, strs, q.subject)
    &&& decodes_to(e.predicate, strs, Term::NamedNode(q.predicate))
    &&& decodes_to(e.object, strs, q.object)
    &&& match q.graph_name {
        GraphName::DefaultGraph => e.graph_name is DefaultGraph,
        GraphName::NamedNode(n) => decodes_to(e.graph_name, strs, Term::NamedNode(n)),
        GraphName::BlankNode(b) => decodes_to(e.graph_name, strs, Term::BlankNode(b)),
    }
}

/// Whether a literal is stored by its text: it is a simple literal, a
/// language-tagged string, or of a datatype whose value the encoding does
/// not parse.
pub open spec fn text_literal(l: Literal) -> bool {
    native_literal_encoding(l.value_spec(), l.datatype_spec(), l.language_spec()) is None
        || l.datatype_spec() == XSD_STRING@ || l.datatype_spec() == RDF_LANG_STRING@
}

/// Whether a literal stored by its value is in canonical form: its datatype
/// is the one the stored value is read back with, and its lexical form is
/// the one written for the stored value (which can be written).
pub open spec fn canonical_native(l: Literal) -> bool {
    let v = l.value_spec();
    let d = l.datatype_spec();
    match native_literal_encoding(v, d, l.language_spec()) {
        Some(EncodedTerm::BooleanLiteral(b)) => d == XSD_BOOLEAN@ && v == (if b {
            "true"@
        } else {
            "false"@
        }),
        Some(EncodedTerm::IntegerLiteral(i)) => d == XSD_INTEGER@ && i64_lexical_spec(i) == v,
        Some(EncodedTerm::FloatLiteral(b)) => d == XSD_FLOAT@ && xsd_float_lexical(b) == v,
        Some(EncodedTerm::DoubleLiteral(b)) => d == XSD_DOUBLE@ && xsd_double_lexical(b) == v,
        Some(EncodedTerm::DecimalLiteral(b)) => d == XSD_DECIMAL@ && xsd_decimal_lexical(b) == v,
        Some(EncodedTerm::DateTimeLiteral(b)) => d == XSD_DATE_TIME@ && timezone_writable(b)
            && xsd_date_time_lexical(b) == v,
        Some(EncodedTerm::TimeLiteral(b)) => d == XSD_TIME@ && timezone_writable(b) && xsd_time_lexical(b) == v,
        Some(EncodedTerm::DateLiteral(b)) => d == XSD_DATE@ && timezone_writable(b) && xsd_date_lexical(b) == v,
        Some(EncodedTerm::GYearMonthLiteral(b)) => d == XSD_G_YEAR_MONTH@ && timezone_writable(b)
            && xsd_g_year_month_lexical(b) == v,
        Some(EncodedTerm::GYearLiteral(b)) => d == XSD_G_YEAR@ && timezone_writable(b) && xsd_g_year_lexical(b)
            == v,
        Some(EncodedTerm::GMonthDayLiteral(b)) => d == XSD_G_MONTH_DAY@ && timezone_writable(b)
            && xsd_g_month_day_lexical(b) == v,
        Some(EncodedTerm::GDayLiteral(b)) => d == XSD_G_DAY@ && timezone_writable(b) && xsd_g_day_lexical(b) == v,
        Some(EncodedTerm::GMonthLiteral(b)) => d == XSD_G_MONTH@ && timezone_writable(b) && xsd_g_month_lexical(b)
            == v,
        Some(EncodedTerm::DurationLiteral(b)) => d == XSD_DURATION@ && duration_writable(b)
            && xsd_duration_lexical(b) == v,
        Some(EncodedTerm::YearMonthDurationLiteral(b)) => d == XSD_YEAR_MONTH_DURATION@
            && xsd_year_month_duration_lexical(b) == v,
        Some(EncodedTerm::DayTimeDurationLiteral(b)) => d == XSD_DAY_TIME_DURATION@
            && xsd_day_time_duration_lexical(b) == v,
        _ => false,
    }
}

/// Whether decoding gives back every literal of the term: each is stored by
/// its text or in canonical form; and no quoted triple has a literal as
/// subject.
pub open spec fn decodes_back_term(t: Term) -> bool
    decreases t,
{
    match t {
        Term::Literal(l) => text_literal(l) || canonical_native(l),
        Term::Triple(tr) => decodes_back_term(tr.subject) && decodes_back_term(tr.object)
            && !(tr.subject is Literal),
        _ => true,
    }
}

/// Whether the string store maps each hash of the pairs to its string.
pub open spec fn holds_strings(strs: Map<StrHash, Seq<char>>, pairs: Seq<(StrHash, Seq<char>)>) -> bool {
    forall|i: int|
        0 <= i < pairs.len() ==> strs.contains_key((#[trigger] pairs[i]).0) && strs[pairs[i].0]
            == pairs[i].1
}

proof fn lemma_holds_strings_split(
    strs: Map<StrHash, Seq<char>>,
    a: Seq<(StrHash, Seq<char>)>,
    b: Seq<(StrHash, Seq<char>)>,
)
    requires
        holds_strings(strs, a + b),
    ensures
        holds_strings(strs, a),
        holds_strings(strs, b),
{
    assert forall|i: int| 0 <= i < a.len() implies strs.contains_key((#[trigger] a[i]).0) && strs[a[i].0] == a[i].1 by {
        assert((a + b)[i] == a[i]);
    }
    assert forall|i: int| 0 <= i < b.len() implies strs.contains_key((#[trigger] b[i]).0) && strs[b[i].0] == b[i].1 by {
        assert((a + b)[a.len() + i] == b[i]);
    }
}

proof fn lemma_small_of_view(s: Seq<char>)
    requires
        fits_small(s),
    ensures
        small_of(s)@ == s,
{
    SmallString::lemma_of_content(encode_utf8(s));
    encode_utf8_decode_utf8(s);
}

proof fn lemma_hashed_held(strs: Map<StrHash, Seq<char>>, s: Seq<char>)
    requires
        holds_strings(strs, hashed(s)),
    ensures
        strs.contains_key(crate::term_encoder::hash_of(s)),
        strs[crate::term_encoder::hash_of(s)] == s,
{
    assert(hashed(s)[0] == (crate::term_encoder::hash_of(s), s));
}

proof fn lemma_decode_encode_literal(l: Literal, strs: Map<StrHash, Seq<char>>)
    requires
        text_literal(l) || canonical_native(l),
        holds_strings(strs, literal_strings_spec(l)),
    ensures
        decodable(encode_literal_term_spec(l), strs),
        decodes_to(encode_literal_term_spec(l), strs, Term::Literal(l)),
{
    if text_literal(l) {
        lemma_decode_encode_text_literal(l, strs);
    } else {
        let d = l.datatype_spec();
        assert(encode_literal_term_spec(l) == native_literal_encoding(l.value_spec(), d, l.language_spec())->0);
        if l is LanguageTagged {
            assert(d == RDF_LANG_STRING@);
        }
    }
}

proof fn lemma_decode_encode_text_literal(l: Literal, strs: Map<StrHash, Seq<char>>)
    requires
        text_literal(l),
        holds_strings(strs, literal_strings_spec(l)),
    ensures
        decodable(encode_literal_term_spec(l), strs),
        decodes_to(encode_literal_term_spec(l), strs, Term::Literal(l)),
{
    let v = l.value_spec();
    let d = l.datatype_spec();
    let lang = l.language_spec();
    let t = Term::Literal(l);
    let e = encode_literal_term_spec(l);
    reveal_strlit("http://www.w3.org/1999/02/22-rdf-syntax-ns#langString");
    reveal_strlit("http://www.w3.org/2001/XMLSchema#string");
    reveal_strlit("http://www.w3.org/2001/XMLSchema#boolean");
    assert(XSD_STRING@ != RDF_LANG_STRING@) by {
        assert(XSD_STRING@.len() != RDF_LANG_STRING@.len());
    }
    assert(XSD_STRING@ != XSD_BOOLEAN@) by {
        assert(XSD_STRING@[33] != XSD_BOOLEAN@[33]);
    }
    if fits_small(v) {
        lemma_small_of_view(v);
    }
    if d == RDF_LANG_STRING@ && lang is Some {
        let lg = lang->0;
        if fits_small(lg) {
            lemma_small_of_view(lg);
        }
        assert(e == crate::term_encoder::encode_lang_string_spec(v, lg));
        if fits_small(v) {
            if !fits_small(lg) {
                lemma_hashed_held(strs, lg);
            }
        } else if fits_small(lg) {
            lemma_hashed_held(strs, v);
        } else {
            lemma_holds_strings_split(strs, hashed(v), hashed(lg));
            lemma_hashed_held(strs, v);
            lemma_hashed_held(strs, lg);
        }
        assert(lang_literal_is(t, v, lg));
    } else if d == XSD_STRING@ {
        assert(e == crate::term_encoder::encode_string_spec(v));
        if !fits_small(v) {
            lemma_hashed_held(strs, v);
        }
        assert(literal_is(t, v, XSD_STRING@));
    } else {
        assert(native_literal_encoding(v, d, lang) is None);
        if fits_small(v) {
            assert(literal_strings_spec(l) == hashed(d));
            lemma_hashed_held(strs, d);
        } else {
            assert(literal_strings_spec(l) == hashed(v) + hashed(d));
            lemma_holds_strings_split(strs, hashed(v), hashed(d));
            lemma_hashed_held(strs, v);
            lemma_hashed_held(strs, d);
        }
        assert(literal_is(t, v, d));
    }
}

/// The encoding of a term other than a literal is no literal.
proof fn lemma_encode_not_literal(t: Term)
    requires
        !(t is Literal),
    ensures
        !crate::numeric_encoder::spec_is_literal(encode_term_spec(t)),
{
    match t {
        Term::NamedNode(n) => {
            assert(encode_term_spec(t) == crate::term_encoder::encode_named_node_spec(n.iri@));
        },
        Term::BlankNode(b) => {
            assert(encode_term_spec(t) == crate::term_encoder::encode_blank_node_spec(b.id@));
        },
        _ => {},
    }
}

proof fn lemma_decode_encode_blank_node(id: Seq<char>, strs: Map<StrHash, Seq<char>>, t: Term)
    requires
        t is BlankNode,
        t->BlankNode_0.id@ == id,
        crate::term_encoder::encode_blank_node_spec(id) is BigBlankNode ==> holds_strings(strs, hashed(id)),
    ensures
        decodable(crate::term_encoder::encode_blank_node_spec(id), strs),
        decodes_to(crate::term_encoder::encode_blank_node_spec(id), strs, t),
{
    match numerical_blank_node_id(id) {
        Some(n) => {
            lemma_hex_format_numerical_id(id);
        },
        None => {
            if fits_small(id) {
                lemma_small_of_view(id);
            } else {
                lemma_hashed_held(strs, id);
            }
        },
    }
}

/// Decoding the encoding of a term, with a string store that holds the
/// term's strings, gives back the term, where its literals are stored by
/// their text or in canonical form.
pub proof fn lemma_decode_encode_term(t: Term, strs: Map<StrHash, Seq<char>>)
    requires
        decodes_back_term(t),
        holds_strings(strs, term_strings_spec(t)),
    ensures
        decodable(encode_term_spec(t), strs),
        decodes_to(encode_term_spec(t), strs, t),
    decreases t,
{
    match t {
        Term::NamedNode(n) => {
            assert(term_strings_spec(t) == hashed(n.iri@));
            lemma_hashed_held(strs, n.iri@);
            assert(encode_term_spec(t) == crate::term_encoder::encode_named_node_spec(n.iri@));
            assert(decodable(encode_term_spec(t), strs));
        },
        Term::BlankNode(b) => {
            assert(encode_term_spec(t) == crate::term_encoder::encode_blank_node_spec(b.id@));
            lemma_decode_encode_blank_node(b.id@, strs, t);
        },
        Term::Literal(l) => {
            assert(term_strings_spec(t) == literal_strings_spec(l));
            assert(encode_term_spec(t) == encode_literal_term_spec(l));
            lemma_decode_encode_literal(l, strs);
        },
        Term::Triple(tr) => {
            let a = term_strings_spec(tr.subject);
            let p = hashed(tr.predicate.iri@);
            let c = term_strings_spec(tr.object);
            assert(term_strings_spec(t) == a + p + c);
            lemma_holds_strings_split(strs, a + p, c);
            lemma_holds_strings_split(strs, a, p);
            lemma_decode_encode_term(tr.subject, strs);
            lemma_decode_encode_term(tr.object, strs);
            lemma_hashed_held(strs, tr.predicate.iri@);
            lemma_encode_not_literal(tr.subject);
            let et = EncodedTriple {
                subject: encode_term_spec(tr.subject),
                predicate: crate::term_encoder::encode_named_node_spec(tr.predicate.iri@),
                object: encode_term_spec(tr.object),
            };
            assert(encode_term_spec(t) == EncodedTerm::Triple(Box::new(et)));
            assert(decodes_to(et.predicate, strs, Term::NamedNode(tr.predicate)));
            assert(decodable(et.subject, strs));
            assert(decodable(et.object, strs));
            assert(decodable(et.predicate, strs));
            assert(decodable(EncodedTerm::Triple(Box::new(et)), strs));
        },
    }
}

/// Whether decoding gives back every term of the quad.
pub open spec fn decodes_back_quad(q: Quad) -> bool {
    decodes_back_term(q.subject) && decodes_back_term(q.object) && !(q.subject is Literal)
}

/// Decoding the encoding of a quad, with a string store that holds the
/// quad's strings, gives back the quad, where its literals are stored by
/// their text or in canonical form.
pub proof fn lemma_decode_encode_quad(q: Quad, strs: Map<StrHash, Seq<char>>)
    requires
        decodes_back_quad(q),
        holds_strings(strs, quad_strings_spec(q)),
    ensures
        quad_decodes_to(encode_quad_spec(q), strs, q),
{
    let a = term_strings_spec(q.subject);
    let p = hashed(q.predicate.iri@);
    let c = term_strings_spec(q.object);
    let g = graph_name_strings_spec(q.graph_name);
    assert(quad_strings_spec(q) == a + p + c + g);
    lemma_holds_strings_split(strs, a + p + c, g);
    lemma_holds_strings_split(strs, a + p, c);
    lemma_holds_strings_split(strs, a, p);
    lemma_decode_encode_term(q.subject, strs);
    lemma_decode_encode_term(q.object, strs);
    lemma_hashed_held(strs, q.predicate.iri@);
    match q.graph_name {
        GraphName::NamedNode(n) => {
            lemma_hashed_held(strs, n.iri@);
        },
        GraphName::BlankNode(b) => {
            let id = b.id@;
            match numerical_blank_node_id(id) {
                Some(n) => {
                    lemma_hex_format_numerical_id(id);
                },
                None => {
                    if fits_small(id) {
                        lemma_small_of_view(id);
                    } else {
                        lemma_hashed_held(strs, id);
                    }
                },
            }
        },
        GraphName::DefaultGraph => {},
    }
}

/// The lexical forms of `xsd:boolean` are stored by their truth value:
/// `"true"` and `"1"` as true, `"false"` and `"0"` as false, any other
/// lexical form as a typed literal; and a boolean written `"true"` or
/// `"false"` is read back as it was written.
pub proof fn law_boolean_literals(l: Literal, strs: Map<StrHash, Seq<char>>)
    requires
        l.datatype_spec() == XSD_BOOLEAN@,
    ensures
        (l.value_spec() == "true"@ || l.value_spec() == "1"@) ==> encode_term_spec(Term::Literal(l))
            == EncodedTerm::BooleanLiteral(true),
        (l.value_spec() == "false"@ || l.value_spec() == "0"@) ==> encode_term_spec(Term::Literal(l))
            == EncodedTerm::BooleanLiteral(false),
        (l.value_spec() == "true"@ || l.value_spec() == "false"@) ==> decodable(encode_term_spec(Term::Literal(l)), strs)
            && decodes_to(encode_term_spec(Term::Literal(l)), strs, Term::Literal(l)),
        !(l.value_spec() == "true"@ || l.value_spec() == "1"@ || l.value_spec() == "false"@ || l.value_spec() == "0"@)
            ==> (encode_term_spec(Term::Literal(l)) is SmallTypedLiteral || encode_term_spec(Term::Literal(l)) is BigTypedLiteral),
{
    reveal_strlit("http://www.w3.org/1999/02/22-rdf-syntax-ns#langString");
    reveal_strlit("http://www.w3.org/2001/XMLSchema#boolean");
    reveal_strlit("true");
    reveal_strlit("false");
    reveal_strlit("1");
    reveal_strlit("0");
    assert(XSD_BOOLEAN@.len() != RDF_LANG_STRING@.len());
    assert("false"@.len() != "true"@.len());
    assert("false"@.len() != "1"@.len());
    assert("0"@.len() != "true"@.len());
    assert("0"@[0] != "1"@[0]);
    let v = l.value_spec();
    assert(encode_term_spec(Term::Literal(l)) == encode_literal_term_spec(l));
    if l is LanguageTagged {
        assert(l.datatype_spec() == RDF_LANG_STRING@);
    }
    assert(l.language_spec() is None);
}

/// An `xsd:integer` literal whose lexical form is the decimal text of an
/// `i64` is stored as that integer, and read back as it was written.
pub proof fn law_integer_literals(l: Literal, i: i64, strs: Map<StrHash, Seq<char>>)
    requires
        l.datatype_spec() == XSD_INTEGER@,
        l.value_spec() == i64_lexical_spec(i),
    ensures
        encode_term_spec(Term::Literal(l)) == EncodedTerm::IntegerLiteral(i),
        decodable(encode_term_spec(Term::Literal(l)), strs),
        decodes_to(encode_term_spec(Term::Literal(l)), strs, Term::Literal(l)),
{
    reveal_strlit("http://www.w3.org/1999/02/22-rdf-syntax-ns#langString");
    reveal_strlit("http://www.w3.org/2001/XMLSchema#integer");
    reveal_strlit("http://www.w3.org/2001/XMLSchema#boolean");
    reveal_strlit("http://www.w3.org/2001/XMLSchema#string");
    reveal_strlit("http://www.w3.org/2001/XMLSchema#float");
    reveal_strlit("http://www.w3.org/2001/XMLSchema#double");
    assert(XSD_INTEGER@.len() != RDF_LANG_STRING@.len());
    assert(XSD_INTEGER@[33] != XSD_BOOLEAN@[33]);
    assert(XSD_INTEGER@.len() != XSD_STRING@.len());
    assert(XSD_INTEGER@.len() != XSD_FLOAT@.len());
    assert(XSD_INTEGER@.len() != XSD_DOUBLE@.len());
    let v = l.value_spec();
    if i < 0 {
        crate::text::lemma_decimal((-i) as nat);
        assert(v.drop_first() =~= crate::text::decimal((-i) as nat));
    } else {
        crate::text::lemma_decimal(i as nat);
        assert(crate::text::is_digit(v[0]));
    }
    assert(crate::xsd::i64_parse(v) == Some(i));
    assert(encode_term_spec(Term::Literal(l)) == encode_literal_term_spec(l));
    if l is LanguageTagged {
        assert(l.datatype_spec() == RDF_LANG_STRING@);
    }
    assert(l.language_spec() is None);
}

} // verus!
