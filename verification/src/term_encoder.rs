//! Encoding of RDF terms into their compact form: IRIs by the hash of their
//! text, blank nodes by their numerical id or their identifier, literals of
//! the known XSD datatypes by their binary value, other strings inline where
//! they hold at most 15 bytes and by their hash otherwise.

use vstd::prelude::*;
use vstd::utf8::{encode_utf8, encode_utf8_valid_utf8};
use crate::small_string::small_string_bytes;
use crate::model::{
    BlankNode, GraphName, Literal, NamedNode, NamedOrBlankNode, Quad, Term, Triple, RDF_LANG_STRING,
    XSD_STRING,
};
use crate::numeric_encoder::{term_wf, EncodedQuad, EncodedTerm, EncodedTriple};
use crate::small_string::SmallString;
use crate::str_hash::StrHash;
use crate::error::StorageError;
use crate::utils::{chars_are, chars_of};
use crate::xsd::{
    i64_parse, parse_date_bytes, parse_date_time_bytes, parse_day_time_duration_bytes, parse_decimal_bytes, parse_double_bytes, parse_duration_bytes, parse_float_bytes, parse_g_day_bytes, parse_g_month_bytes, parse_g_month_day_bytes, parse_g_year_bytes, parse_g_year_month_bytes, parse_i64, parse_time_bytes, parse_year_month_duration_bytes, xsd_date_bytes, xsd_date_time_bytes, xsd_day_time_duration_bytes, xsd_decimal_bytes, xsd_double_bytes, xsd_duration_bytes, xsd_float_bytes, xsd_g_day_bytes, xsd_g_month_bytes, xsd_g_month_day_bytes, xsd_g_year_bytes, xsd_g_year_month_bytes, xsd_time_bytes, xsd_year_month_duration_bytes,
};

verus! {

pub const XSD_BOOLEAN: &'static str = "http://www.w3.org/2001/XMLSchema#boolean";
pub const XSD_FLOAT: &'static str = "http://www.w3.org/2001/XMLSchema#float";
pub const XSD_DOUBLE: &'static str = "http://www.w3.org/2001/XMLSchema#double";
pub const XSD_INTEGER: &'static str = "http://www.w3.org/2001/XMLSchema#integer";
pub const XSD_BYTE: &'static str = "http://www.w3.org/2001/XMLSchema#byte";
pub const XSD_SHORT: &'static str = "http://www.w3.org/2001/XMLSchema#short";
pub const XSD_INT: &'static str = "http://www.w3.org/2001/XMLSchema#int";
pub const XSD_LONG: &'static str = "http://www.w3.org/2001/XMLSchema#long";
pub const XSD_UNSIGNED_BYTE: &'static str = "http://www.w3.org/2001/XMLSchema#unsignedByte";
pub const XSD_UNSIGNED_SHORT: &'static str = "http://www.w3.org/2001/XMLSchema#unsignedShort";
pub const XSD_UNSIGNED_INT: &'static str = "http://www.w3.org/2001/XMLSchema#unsignedInt";
pub const XSD_UNSIGNED_LONG: &'static str = "http://www.w3.org/2001/XMLSchema#unsignedLong";
pub const XSD_POSITIVE_INTEGER: &'static str = "http://www.w3.org/2001/XMLSchema#positiveInteger";
pub const XSD_NEGATIVE_INTEGER: &'static str = "http://www.w3.org/2001/XMLSchema#negativeInteger";
pub const XSD_NON_POSITIVE_INTEGER: &'static str = "http://www.w3.org/2001/XMLSchema#nonPositiveInteger";
pub const XSD_NON_NEGATIVE_INTEGER: &'static str = "http://www.w3.org/2001/XMLSchema#nonNegativeInteger";
pub const XSD_DECIMAL: &'static str = "http://www.w3.org/2001/XMLSchema#decimal";
pub const XSD_DATE_TIME: &'static str = "http://www.w3.org/2001/XMLSchema#dateTime";
pub const XSD_DATE_TIME_STAMP: &'static str = "http://www.w3.org/2001/XMLSchema#dateTimeStamp";
pub const XSD_TIME: &'static str = "http://www.w3.org/2001/XMLSchema#time";
pub const XSD_DATE: &'static str = "http://www.w3.org/2001/XMLSchema#date";
pub const XSD_G_YEAR_MONTH: &'static str = "http://www.w3.org/2001/XMLSchema#gYearMonth";
pub const XSD_G_YEAR: &'static str = "http://www.w3.org/2001/XMLSchema#gYear";
pub const XSD_G_MONTH_DAY: &'static str = "http://www.w3.org/2001/XMLSchema#gMonthDay";
pub const XSD_G_DAY: &'static str = "http://www.w3.org/2001/XMLSchema#gDay";
pub const XSD_G_MONTH: &'static str = "http://www.w3.org/2001/XMLSchema#gMonth";
pub const XSD_DURATION: &'static str = "http://www.w3.org/2001/XMLSchema#duration";
pub const XSD_YEAR_MONTH_DURATION: &'static str = "http://www.w3.org/2001/XMLSchema#yearMonthDuration";
pub const XSD_DAY_TIME_DURATION: &'static str = "http://www.w3.org/2001/XMLSchema#dayTimeDuration";

/// Whether a string is stored inline: its UTF-8 form has at most 15 bytes.
pub open spec fn fits_small(s: Seq<char>) -> bool {
    encode_utf8(s).len() <= 15
}

/// The inline form of a short string.
pub open spec fn small_of(s: Seq<char>) -> SmallString {
    SmallString::of_content(encode_utf8(s))
}

/// The hash of a string.
pub open spec fn hash_of(s: Seq<char>) -> StrHash {
    StrHash::of_bytes(encode_utf8(s))
}

/// The value of a lowercase hexadecimal digit.
pub open spec fn hex_digit_value(c: char) -> Option<int> {
    if '0' <= c && c <= '9' {
        Some(c as int - '0' as int)
    } else if 'a' <= c && c <= 'f' {
        Some(c as int - 'a' as int + 10)
    } else {
        None
    }
}

/// The value of a sequence of lowercase hexadecimal digits.
pub open spec fn hex_value(s: Seq<char>) -> Option<int>
    decreases s.len(),
{
    if s.len() == 0 {
        Some(0)
    } else {
        match (hex_value(s.drop_last()), hex_digit_value(s.last())) {
            (Some(v), Some(d)) => Some(v * 16 + d),
            _ => None,
        }
    }
}

/// The numerical id of a blank node identifier: the identifier is a nonempty
/// lowercase hexadecimal number without leading zero that fits in 128 bits.
pub open spec fn numerical_blank_node_id(id: Seq<char>) -> Option<u128> {
    if id.len() == 0 || id[0] == '0' {
        None
    } else {
        match hex_value(id) {
            Some(v) => if v <= u128::MAX {
                Some(v as u128)
            } else {
                None
            },
            None => None,
        }
    }
}

/// Extending a string keeps its hexadecimal value from shrinking, and a
/// string whose prefix is no hexadecimal number is none either.
proof fn lemma_hex_value_prefix(s: Seq<char>, j: int, k: int)
    requires
        0 <= j <= k <= s.len(),
    ensures
        hex_value(s.take(k)) is Some ==> hex_value(s.take(j)) is Some && hex_value(s.take(j))->0 <= hex_value(
            s.take(k),
        )->0,
        hex_value(s.take(k)) is Some ==> hex_value(s.take(k))->0 >= 0,
    decreases k - j,
{
    lemma_hex_value_nonneg(s.take(k));
    if j < k {
        assert(s.take(k).drop_last() =~= s.take(k - 1));
        lemma_hex_value_prefix(s, j, k - 1);
    }
}

proof fn lemma_hex_value_nonneg(s: Seq<char>)
    ensures
        hex_value(s) is Some ==> hex_value(s)->0 >= 0,
    decreases s.len(),
{
    if s.len() > 0 {
        lemma_hex_value_nonneg(s.drop_last());
    }
}

/// The numerical id of a blank node identifier, as `oxrdf`'s
/// `BlankNodeRef::new_unchecked(id).unique_id()` reads it.
fn blank_node_unique_id(id: &str) -> (r: Option<u128>)
    ensures
        r == numerical_blank_node_id(id@),
{
    let cs = crate::utils::chars_of(id);
    let n = cs.len();
    if n == 0 || cs[0] == '0' {
        return None;
    }
    let mut value: u128 = 0;
    let mut i: usize = 0;
    assert(cs@.take(0) =~= Seq::<char>::empty());
    while i < n
        invariant
            i <= n,
            n == cs@.len(),
            cs@ == id@,
            hex_value(cs@.take(i as int)) == Some(value as int),
        decreases n - i,
    {
        let c = cs[i];
        assert(cs@.take(i + 1).drop_last() =~= cs@.take(i as int));
        assert(cs@.take(i + 1).last() == c);
        let d: u128 = if '0' <= c && c <= '9' {
            (c as u32 - 48) as u128
        } else if 'a' <= c && c <= 'f' {
            (c as u32 - 87) as u128
        } else {
            proof {
                lemma_hex_value_prefix(cs@, i + 1, n as int);
                assert(cs@.take(n as int) =~= cs@);
            }
            return None;
        };
        assert(hex_digit_value(c) == Some(d as int));
        if value > (u128::MAX - d) / 16 {
            assert(value * 16 + d > u128::MAX) by (nonlinear_arith)
                requires
                    value > (u128::MAX - d) / 16,
                    d <= 15,
            ;
            proof {
                lemma_hex_value_prefix(cs@, i + 1, n as int);
                assert(cs@.take(n as int) =~= cs@);
            }
            return None;
        }
        assert(value * 16 + d <= u128::MAX) by (nonlinear_arith)
            requires
                value <= (u128::MAX - d) / 16,
                d <= 15,
        ;
        value = value * 16 + d;
        i = i + 1;
    }
    assert(cs@.take(n as int) =~= cs@);
    Some(value)
}

pub open spec fn encode_named_node_spec(iri: Seq<char>) -> EncodedTerm {
    EncodedTerm::NamedNode { iri_id: hash_of(iri) }
}

pub open spec fn encode_blank_node_spec(id: Seq<char>) -> EncodedTerm {
    match numerical_blank_node_id(id) {
        Some(n) => EncodedTerm::NumericalBlankNode { id: n },
        None => if fits_small(id) {
            EncodedTerm::SmallBlankNode(small_of(id))
        } else {
            EncodedTerm::BigBlankNode { id_id: hash_of(id) }
        },
    }
}

pub open spec fn encode_lang_string_spec(value: Seq<char>, language: Seq<char>) -> EncodedTerm {
    if fits_small(value) {
        if fits_small(language) {
            EncodedTerm::SmallSmallLangStringLiteral {
                value: small_of(value),
                language: small_of(language),
            }
        } else {
            EncodedTerm::SmallBigLangStringLiteral {
                value: small_of(value),
                language_id: hash_of(language),
            }
        }
    } else if fits_small(language) {
        EncodedTerm::BigSmallLangStringLiteral { value_id: hash_of(value), language: small_of(language) }
    } else {
        EncodedTerm::BigBigLangStringLiteral {
            value_id: hash_of(value),
            language_id: hash_of(language),
        }
    }
}

pub open spec fn encode_string_spec(value: Seq<char>) -> EncodedTerm {
    if fits_small(value) {
        EncodedTerm::SmallStringLiteral(small_of(value))
    } else {
        EncodedTerm::BigStringLiteral { value_id: hash_of(value) }
    }
}

/// The boolean of the lexical forms `true`, `1`, `false` and `0`.
pub open spec fn parse_boolean_spec(value: Seq<char>) -> Option<EncodedTerm> {
    if value == "true"@ || value == "1"@ {
        Some(EncodedTerm::BooleanLiteral(true))
    } else if value == "false"@ || value == "0"@ {
        Some(EncodedTerm::BooleanLiteral(false))
    } else {
        None
    }
}

/// Whether the datatype is one of the integer datatypes stored as an `i64`.
pub open spec fn is_integer_datatype(d: Seq<char>) -> bool {
    d == XSD_INTEGER@ || d == XSD_BYTE@ || d == XSD_SHORT@ || d == XSD_INT@ || d == XSD_LONG@ || d
        == XSD_UNSIGNED_BYTE@ || d == XSD_UNSIGNED_SHORT@ || d == XSD_UNSIGNED_INT@ || d
        == XSD_UNSIGNED_LONG@ || d == XSD_POSITIVE_INTEGER@ || d == XSD_NEGATIVE_INTEGER@ || d
        == XSD_NON_POSITIVE_INTEGER@ || d == XSD_NON_NEGATIVE_INTEGER@
}

/// The native encoding of a literal of a known datatype whose lexical form
/// parses, `None` otherwise.
pub open spec fn native_literal_encoding(
    value: Seq<char>,
    datatype: Seq<char>,
    language: Option<Seq<char>>,
) -> Option<EncodedTerm> {
    if datatype == RDF_LANG_STRING@ {
        match language {
            Some(l) => Some(encode_lang_string_spec(value, l)),
            None => None,
        }
    } else if datatype == XSD_BOOLEAN@ {
        parse_boolean_spec(value)
    } else if datatype == XSD_STRING@ {
        Some(encode_string_spec(value))
    } else if datatype == XSD_FLOAT@ {
        match xsd_float_bytes(value) {
            Some(b) => Some(EncodedTerm::FloatLiteral(b)),
            None => None,
        }
    } else if datatype == XSD_DOUBLE@ {
        match xsd_double_bytes(value) {
            Some(b) => Some(EncodedTerm::DoubleLiteral(b)),
            None => None,
        }
    } else if is_integer_datatype(datatype) {
        match i64_parse(value) {
            Some(i) => Some(EncodedTerm::IntegerLiteral(i)),
            None => None,
        }
    } else if datatype == XSD_DECIMAL@ {
        match xsd_decimal_bytes(value) {
            Some(b) => Some(EncodedTerm::DecimalLiteral(b)),
            None => None,
        }
    } else if datatype == XSD_DATE_TIME@ || datatype == XSD_DATE_TIME_STAMP@ {
        match xsd_date_time_bytes(value) {
            Some(b) => Some(EncodedTerm::DateTimeLiteral(b)),
            None => None,
        }
    } else if datatype == XSD_TIME@ {
        match xsd_time_bytes(value) {
            Some(b) => Some(EncodedTerm::TimeLiteral(b)),
            None => None,
        }
    } else if datatype == XSD_DATE@ {
        match xsd_date_bytes(value) {
            Some(b) => Some(EncodedTerm::DateLiteral(b)),
            None => None,
        }
    } else if datatype == XSD_G_YEAR_MONTH@ {
        match xsd_g_year_month_bytes(value) {
            Some(b) => Some(EncodedTerm::GYearMonthLiteral(b)),
            None => None,
        }
    } else if datatype == XSD_G_YEAR@ {
        match xsd_g_year_bytes(value) {
            Some(b) => Some(EncodedTerm::GYearLiteral(b)),
            None => None,
        }
    } else if datatype == XSD_G_MONTH_DAY@ {
        match xsd_g_month_day_bytes(value) {
            Some(b) => Some(EncodedTerm::GMonthDayLiteral(b)),
            None => None,
        }
    } else if datatype == XSD_G_DAY@ {
        match xsd_g_day_bytes(value) {
            Some(b) => Some(EncodedTerm::GDayLiteral(b)),
            None => None,
        }
    } else if datatype == XSD_G_MONTH@ {
        match xsd_g_month_bytes(value) {
            Some(b) => Some(EncodedTerm::GMonthLiteral(b)),
            None => None,
        }
    } else if datatype == XSD_DURATION@ {
        match xsd_duration_bytes(value) {
            Some(b) => Some(EncodedTerm::DurationLiteral(b)),
            None => None,
        }
    } else if datatype == XSD_YEAR_MONTH_DURATION@ {
        match xsd_year_month_duration_bytes(value) {
            Some(b) => Some(EncodedTerm::YearMonthDurationLiteral(b)),
            None => None,
        }
    } else if datatype == XSD_DAY_TIME_DURATION@ {
        match xsd_day_time_duration_bytes(value) {
            Some(b) => Some(EncodedTerm::DayTimeDurationLiteral(b)),
            None => None,
        }
    } else {
        None
    }
}

/// The encoding of a literal: its native encoding where there is one, else
/// its value (inline or hashed) with the hash of its datatype.
pub open spec fn encode_literal_spec(
    value: Seq<char>,
    datatype: Seq<char>,
    language: Option<Seq<char>>,
) -> EncodedTerm {
    match native_literal_encoding(value, datatype, language) {
        Some(t) => t,
        None => if fits_small(value) {
            EncodedTerm::SmallTypedLiteral { value: small_of(value), datatype_id: hash_of(datatype) }
        } else {
            EncodedTerm::BigTypedLiteral { value_id: hash_of(value), datatype_id: hash_of(datatype) }
        },
    }
}

pub open spec fn encode_literal_term_spec(l: Literal) -> EncodedTerm {
    encode_literal_spec(l.value_spec(), l.datatype_spec(), l.language_spec())
}

pub open spec fn encode_term_spec(t: Term) -> EncodedTerm
    decreases t,
{
    match t {
        Term::NamedNode(n) => encode_named_node_spec(n.iri@),
        Term::BlankNode(b) => encode_blank_node_spec(b.id@),
        Term::Literal(l) => encode_literal_term_spec(l),
        Term::Triple(tr) => EncodedTerm::Triple(
            Box::new(
                EncodedTriple {
                    subject: encode_term_spec(tr.subject),
                    predicate: encode_named_node_spec(tr.predicate.iri@),
                    object: encode_term_spec(tr.object),
                },
            ),
        ),
    }
}

pub open spec fn encode_graph_name_spec(g: GraphName) -> EncodedTerm {
    match g {
        GraphName::NamedNode(n) => encode_named_node_spec(n.iri@),
        GraphName::BlankNode(b) => encode_blank_node_spec(b.id@),
        GraphName::DefaultGraph => EncodedTerm::DefaultGraph,
    }
}

pub open spec fn encode_named_or_blank_node_spec(g: NamedOrBlankNode) -> EncodedTerm {
    match g {
        NamedOrBlankNode::NamedNode(n) => encode_named_node_spec(n.iri@),
        NamedOrBlankNode::BlankNode(b) => encode_blank_node_spec(b.id@),
    }
}

pub open spec fn encode_quad_spec(q: Quad) -> EncodedQuad {
    EncodedQuad {
        subject: encode_term_spec(q.subject),
        predicate: encode_named_node_spec(q.predicate.iri@),
        object: encode_term_spec(q.object),
        graph_name: encode_graph_name_spec(q.graph_name),
    }
}

/// The inline form of a string where it is short, its hash otherwise.
pub(crate) fn small_or_hash(value: &str) -> (r: Result<SmallString, StrHash>)
    ensures
        fits_small(value@) ==> r == Ok::<SmallString, StrHash>(small_of(value@)),
        !fits_small(value@) ==> r == Err::<SmallString, StrHash>(hash_of(value@)),
{
    match SmallString::from_str_value(value) {
        Ok(s) => Ok(s),
        Err(_) => Err(StrHash::new(value)),
    }
}

/// Reads `true`, `1`, `false` and `0` as booleans.
pub fn parse_boolean_str(value: &str) -> (r: Option<EncodedTerm>)
    ensures
        r == parse_boolean_spec(value@),
{
    let v = chars_of(value);
    if chars_are(&v, "true") || chars_are(&v, "1") {
        Some(EncodedTerm::BooleanLiteral(true))
    } else if chars_are(&v, "false") || chars_are(&v, "0") {
        Some(EncodedTerm::BooleanLiteral(false))
    } else {
        None
    }
}

pub fn parse_float_str(value: &str) -> (r: Option<EncodedTerm>)
    ensures
        r == (match xsd_float_bytes(value@) {
            Some(b) => Some(EncodedTerm::FloatLiteral(b)),
            None => None,
        }),
{
    match parse_float_bytes(value) {
        Some(b) => Some(EncodedTerm::FloatLiteral(b)),
        None => None,
    }
}

pub fn parse_double_str(value: &str) -> (r: Option<EncodedTerm>)
    ensures
        r == (match xsd_double_bytes(value@) {
            Some(b) => Some(EncodedTerm::DoubleLiteral(b)),
            None => None,
        }),
{
    match parse_double_bytes(value) {
        Some(b) => Some(EncodedTerm::DoubleLiteral(b)),
        None => None,
    }
}

pub fn parse_integer_str(value: &str) -> (r: Option<EncodedTerm>)
    ensures
        r == (match i64_parse(value@) {
            Some(i) => Some(EncodedTerm::IntegerLiteral(i)),
            None => None,
        }),
{
    match parse_i64(value) {
        Some(i) => Some(EncodedTerm::IntegerLiteral(i)),
        None => None,
    }
}

pub fn parse_decimal_str(value: &str) -> (r: Option<EncodedTerm>)
    ensures
        r == (match xsd_decimal_bytes(value@) {
            Some(b) => Some(EncodedTerm::DecimalLiteral(b)),
            None => None,
        }),
{
    match parse_decimal_bytes(value) {
        Some(b) => Some(EncodedTerm::DecimalLiteral(b)),
        None => None,
    }
}

pub fn parse_date_time_str(value: &str) -> (r: Option<EncodedTerm>)
    ensures
        r == (match xsd_date_time_bytes(value@) {
            Some(b) => Some(EncodedTerm::DateTimeLiteral(b)),
            None => None,
        }),
{
    match parse_date_time_bytes(value) {
        Some(b) => Some(EncodedTerm::DateTimeLiteral(b)),
        None => None,
    }
}

pub fn parse_time_str(value: &str) -> (r: Option<EncodedTerm>)
    ensures
        r == (match xsd_time_bytes(value@) {
            Some(b) => Some(EncodedTerm::TimeLiteral(b)),
            None => None,
        }),
{
    match parse_time_bytes(value) {
        Some(b) => Some(EncodedTerm::TimeLiteral(b)),
        None => None,
    }
}

pub fn parse_date_str(value: &str) -> (r: Option<EncodedTerm>)
    ensures
        r == (match xsd_date_bytes(value@) {
            Some(b) => Some(EncodedTerm::DateLiteral(b)),
            None => None,
        }),
{
    match parse_date_bytes(value) {
        Some(b) => Some(EncodedTerm::DateLiteral(b)),
        None => None,
    }
}

pub fn parse_g_year_month_str(value: &str) -> (r: Option<EncodedTerm>)
    ensures
        r == (match xsd_g_year_month_bytes(value@) {
            Some(b) => Some(EncodedTerm::GYearMonthLiteral(b)),
            None => None,
        }),
{
    match parse_g_year_month_bytes(value) {
        Some(b) => Some(EncodedTerm::GYearMonthLiteral(b)),
        None => None,
    }
}

pub fn parse_g_year_str(value: &str) -> (r: Option<EncodedTerm>)
    ensures
        r == (match xsd_g_year_bytes(value@) {
            Some(b) => Some(EncodedTerm::GYearLiteral(b)),
            None => None,
        }),
{
    match parse_g_year_bytes(value) {
        Some(b) => Some(EncodedTerm::GYearLiteral(b)),
        None => None,
    }
}

pub fn parse_g_month_day_str(value: &str) -> (r: Option<EncodedTerm>)
    ensures
        r == (match xsd_g_month_day_bytes(value@) {
            Some(b) => Some(EncodedTerm::GMonthDayLiteral(b)),
            None => None,
        }),
{
    match parse_g_month_day_bytes(value) {
        Some(b) => Some(EncodedTerm::GMonthDayLiteral(b)),
        None => None,
    }
}

pub fn parse_g_day_str(value: &str) -> (r: Option<EncodedTerm>)
    ensures
        r == (match xsd_g_day_bytes(value@) {
            Some(b) => Some(EncodedTerm::GDayLiteral(b)),
            None => None,
        }),
{
    match parse_g_day_bytes(value) {
        Some(b) => Some(EncodedTerm::GDayLiteral(b)),
        None => None,
    }
}

pub fn parse_g_month_str(value: &str) -> (r: Option<EncodedTerm>)
    ensures
        r == (match xsd_g_month_bytes(value@) {
            Some(b) => Some(EncodedTerm::GMonthLiteral(b)),
            None => None,
        }),
{
    match parse_g_month_bytes(value) {
        Some(b) => Some(EncodedTerm::GMonthLiteral(b)),
        None => None,
    }
}

pub fn parse_duration_str(value: &str) -> (r: Option<EncodedTerm>)
    ensures
        r == (match xsd_duration_bytes(value@) {
            Some(b) => Some(EncodedTerm::DurationLiteral(b)),
            None => None,
        }),
{
    match parse_duration_bytes(value) {
        Some(b) => Some(EncodedTerm::DurationLiteral(b)),
        None => None,
    }
}

pub fn parse_year_month_duration_str(value: &str) -> (r: Option<EncodedTerm>)
    ensures
        r == (match xsd_year_month_duration_bytes(value@) {
            Some(b) => Some(EncodedTerm::YearMonthDurationLiteral(b)),
            None => None,
        }),
{
    match parse_year_month_duration_bytes(value) {
        Some(b) => Some(EncodedTerm::YearMonthDurationLiteral(b)),
        None => None,
    }
}

pub fn parse_day_time_duration_str(value: &str) -> (r: Option<EncodedTerm>)
    ensures
        r == (match xsd_day_time_duration_bytes(value@) {
            Some(b) => Some(EncodedTerm::DayTimeDurationLiteral(b)),
            None => None,
        }),
{
    match parse_day_time_duration_bytes(value) {
        Some(b) => Some(EncodedTerm::DayTimeDurationLiteral(b)),
        None => None,
    }
}

/// Encodes RDF terms.
pub struct TermEncoder {}

impl TermEncoder {
    pub fn new() -> (r: Self) {
        Self {}
    }

    pub fn encode_named_node(&self, named_node: &NamedNode) -> (r: EncodedTerm)
        ensures
            r == encode_named_node_spec(named_node.iri@),
    {
        EncodedTerm::NamedNode { iri_id: StrHash::new(named_node.as_str()) }
    }

    pub fn encode_blank_node(&self, blank_node: &BlankNode) -> (r: EncodedTerm)
        ensures
            r == encode_blank_node_spec(blank_node.id@),
    {
        let id = blank_node.as_str();
        match blank_node_unique_id(id) {
            Some(n) => EncodedTerm::NumericalBlankNode { id: n },
            None => match small_or_hash(id) {
                Ok(s) => EncodedTerm::SmallBlankNode(s),
                Err(h) => EncodedTerm::BigBlankNode { id_id: h },
            },
        }
    }

    fn encode_lang_string(&self, value: &str, language: &str) -> (r: EncodedTerm)
        ensures
            r == encode_lang_string_spec(value@, language@),
    {
        match (small_or_hash(value), small_or_hash(language)) {
            (Ok(value), Ok(language)) => EncodedTerm::SmallSmallLangStringLiteral { value, language },
            (Ok(value), Err(language_id)) => EncodedTerm::SmallBigLangStringLiteral { value, language_id },
            (Err(value_id), Ok(language)) => EncodedTerm::BigSmallLangStringLiteral { value_id, language },
            (Err(value_id), Err(language_id)) => EncodedTerm::BigBigLangStringLiteral {
                value_id,
                language_id,
            },
        }
    }

    pub(crate) fn native_encoding(&self, value: &str, datatype: &str, language: Option<&str>) -> (r: Option<
        EncodedTerm,
    >)
        requires
            language matches Some(l) ==> datatype@ == RDF_LANG_STRING@,
        ensures
            r == native_literal_encoding(
                value@,
                datatype@,
                match language {
                    Some(l) => Some(l@),
                    None => None,
                },
            ),
    {
        let dt = chars_of(datatype);
        if chars_are(&dt, RDF_LANG_STRING) {
            match language {
                Some(language) => Some(self.encode_lang_string(value, language)),
                None => None,
            }
        } else if chars_are(&dt, XSD_BOOLEAN) {
            parse_boolean_str(value)
        } else if chars_are(&dt, XSD_STRING) {
            Some(
                match small_or_hash(value) {
                    Ok(s) => EncodedTerm::SmallStringLiteral(s),
                    Err(h) => EncodedTerm::BigStringLiteral { value_id: h },
                },
            )
        } else if chars_are(&dt, XSD_FLOAT) {
            parse_float_str(value)
        } else if chars_are(&dt, XSD_DOUBLE) {
            parse_double_str(value)
        } else if chars_are(&dt, XSD_INTEGER) || chars_are(&dt, XSD_BYTE) || chars_are(&dt, XSD_SHORT)
            || chars_are(&dt, XSD_INT) || chars_are(&dt, XSD_LONG) || chars_are(
            &dt,
            XSD_UNSIGNED_BYTE,
        ) || chars_are(&dt, XSD_UNSIGNED_SHORT) || chars_are(&dt, XSD_UNSIGNED_INT) || chars_are(
            &dt,
            XSD_UNSIGNED_LONG,
        ) || chars_are(&dt, XSD_POSITIVE_INTEGER) || chars_are(&dt, XSD_NEGATIVE_INTEGER)
            || chars_are(&dt, XSD_NON_POSITIVE_INTEGER) || chars_are(&dt, XSD_NON_NEGATIVE_INTEGER) {
            parse_integer_str(value)
        } else if chars_are(&dt, XSD_DECIMAL) {
            parse_decimal_str(value)
        } else if chars_are(&dt, XSD_DATE_TIME) || chars_are(&dt, XSD_DATE_TIME_STAMP) {
            parse_date_time_str(value)
        } else if chars_are(&dt, XSD_TIME) {
            parse_time_str(value)
        } else if chars_are(&dt, XSD_DATE) {
            parse_date_str(value)
        } else if chars_are(&dt, XSD_G_YEAR_MONTH) {
            parse_g_year_month_str(value)
        } else if chars_are(&dt, XSD_G_YEAR) {
            parse_g_year_str(value)
        } else if chars_are(&dt, XSD_G_MONTH_DAY) {
            parse_g_month_day_str(value)
        } else if chars_are(&dt, XSD_G_DAY) {
            parse_g_day_str(value)
        } else if chars_are(&dt, XSD_G_MONTH) {
            parse_g_month_str(value)
        } else if chars_are(&dt, XSD_DURATION) {
            parse_duration_str(value)
        } else if chars_are(&dt, XSD_YEAR_MONTH_DURATION) {
            parse_year_month_duration_str(value)
        } else if chars_are(&dt, XSD_DAY_TIME_DURATION) {
            parse_day_time_duration_str(value)
        } else {
            None
        }
    }

    pub fn encode_literal(&self, literal: &Literal) -> (r: EncodedTerm)
        ensures
            r == encode_literal_term_spec(*literal),
    {
        let value = literal.value();
        let datatype = literal.datatype();
        let language = literal.language();
        match self.native_encoding(value, datatype, language) {
            Some(term) => term,
            None => match small_or_hash(value) {
                Ok(value) => EncodedTerm::SmallTypedLiteral {
                    value,
                    datatype_id: StrHash::new(datatype),
                },
                Err(value_id) => EncodedTerm::BigTypedLiteral {
                    value_id,
                    datatype_id: StrHash::new(datatype),
                },
            },
        }
    }

    pub fn encode_term(&self, term: &Term) -> (r: EncodedTerm)
        ensures
            r == encode_term_spec(*term),
        decreases term,
    {
        match term {
            Term::NamedNode(n) => self.encode_named_node(n),
            Term::BlankNode(b) => self.encode_blank_node(b),
            Term::Literal(l) => self.encode_literal(l),
            Term::Triple(t) => EncodedTerm::Triple(Box::new(self.encode_triple(t))),
        }
    }

    pub fn encode_triple(&self, triple: &Triple) -> (r: EncodedTriple)
        ensures
            r == (EncodedTriple {
                subject: encode_term_spec(triple.subject),
                predicate: encode_named_node_spec(triple.predicate.iri@),
                object: encode_term_spec(triple.object),
            }),
        decreases triple,
    {
        EncodedTriple {
            subject: self.encode_term(&triple.subject),
            predicate: self.encode_named_node(&triple.predicate),
            object: self.encode_term(&triple.object),
        }
    }

    pub fn encode_graph_name(&self, name: &GraphName) -> (r: EncodedTerm)
        ensures
            r == encode_graph_name_spec(*name),
    {
        match name {
            GraphName::NamedNode(n) => self.encode_named_node(n),
            GraphName::BlankNode(b) => self.encode_blank_node(b),
            GraphName::DefaultGraph => EncodedTerm::DefaultGraph,
        }
    }

    pub fn encode_named_or_blank_node(&self, node: &NamedOrBlankNode) -> (r: EncodedTerm)
        ensures
            r == encode_named_or_blank_node_spec(*node),
    {
        match node {
            NamedOrBlankNode::NamedNode(n) => self.encode_named_node(n),
            NamedOrBlankNode::BlankNode(b) => self.encode_blank_node(b),
        }
    }

    pub fn encode_quad(&self, quad: &Quad) -> (r: EncodedQuad)
        ensures
            r == encode_quad_spec(*quad),
    {
        EncodedQuad {
            subject: self.encode_term(&quad.subject),
            predicate: self.encode_named_node(&quad.predicate),
            object: self.encode_term(&quad.object),
            graph_name: self.encode_graph_name(&quad.graph_name),
        }
    }
}

/// The inline form of a short string is a valid small string.
pub proof fn lemma_small_of_wf(s: Seq<char>)
    requires
        fits_small(s),
    ensures
        small_of(s).wf(),
{
    let c = encode_utf8(s);
    let b = small_string_bytes(c);
    assert(b.len() == 16);
    SmallString::lemma_from_bytes_spec(b);
    assert(b[15] == c.len() as u8);
    assert(b.take(b[15] as int) =~= c);
    encode_utf8_valid_utf8(s);
}

/// The encoding of a string as value or language.
proof fn lemma_lang_string_wf(value: Seq<char>, language: Seq<char>)
    ensures
        term_wf(encode_lang_string_spec(value, language)),
{
    if fits_small(value) {
        lemma_small_of_wf(value);
    }
    if fits_small(language) {
        lemma_small_of_wf(language);
    }
}

/// The encoding of a literal is well formed.
pub proof fn lemma_encode_literal_wf(value: Seq<char>, datatype: Seq<char>, language: Option<Seq<char>>)
    ensures
        term_wf(encode_literal_spec(value, datatype, language)),
        !(encode_literal_spec(value, datatype, language) is DefaultGraph),
        !(encode_literal_spec(value, datatype, language) is Triple),
{
    if fits_small(value) {
        lemma_small_of_wf(value);
    }
    if let Some(l) = language {
        lemma_lang_string_wf(value, l);
    }
}

/// The encoding of a term is well formed and is no default graph marker.
pub proof fn lemma_encode_term_wf(t: Term)
    ensures
        term_wf(encode_term_spec(t)),
        !(encode_term_spec(t) is DefaultGraph),
    decreases t,
{
    match t {
        Term::NamedNode(n) => {
            assert(encode_term_spec(t) == encode_named_node_spec(n.iri@));
        },
        Term::BlankNode(b) => {
            if fits_small(b.id@) {
                lemma_small_of_wf(b.id@);
            }
            assert(encode_term_spec(t) == encode_blank_node_spec(b.id@));
        },
        Term::Literal(l) => {
            lemma_encode_literal_wf(l.value_spec(), l.datatype_spec(), l.language_spec());
            assert(encode_term_spec(t) == encode_literal_term_spec(l));
        },
        Term::Triple(tr) => {
            lemma_encode_term_wf(tr.subject);
            lemma_encode_term_wf(tr.object);
            let e = EncodedTriple {
                subject: encode_term_spec(tr.subject),
                predicate: encode_named_node_spec(tr.predicate.iri@),
                object: encode_term_spec(tr.object),
            };
            assert(encode_term_spec(t) == EncodedTerm::Triple(Box::new(e)));
            assert(term_wf(e.predicate));
        },
    }
}

/// A literal whose encoding is that of a language-tagged string has a language.
proof fn lemma_lang_encoding_has_language(l: Literal)
    ensures
        (encode_literal_term_spec(l) is SmallBigLangStringLiteral || encode_literal_term_spec(l) is BigBigLangStringLiteral
            || encode_literal_term_spec(l) is SmallSmallLangStringLiteral || encode_literal_term_spec(l) is BigSmallLangStringLiteral)
            ==> l.language_spec() is Some,
{
}

/// The encoding of a graph name is well formed, and is the default graph
/// marker exactly for the default graph.
pub proof fn lemma_encode_graph_name_wf(g: GraphName)
    ensures
        term_wf(encode_graph_name_spec(g)),
        (encode_graph_name_spec(g) is DefaultGraph) <==> (g is DefaultGraph),
{
    match g {
        GraphName::BlankNode(b) => {
            if fits_small(b.id@) {
                lemma_small_of_wf(b.id@);
            }
        },
        _ => {},
    }
}

/// A string keyed by its hash.
pub open spec fn hashed(s: Seq<char>) -> Seq<(StrHash, Seq<char>)> {
    seq![(hash_of(s), s)]
}

/// The strings of a literal that its encoding keeps by their hash.
pub open spec fn literal_strings_spec(l: Literal) -> Seq<(StrHash, Seq<char>)> {
    let value = l.value_spec();
    let datatype = l.datatype_spec();
    let language = match l.language_spec() {
        Some(x) => x,
        None => Seq::empty(),
    };
    match encode_literal_term_spec(l) {
        EncodedTerm::BigStringLiteral { .. } => hashed(value),
        EncodedTerm::BigSmallLangStringLiteral { .. } => hashed(value),
        EncodedTerm::SmallBigLangStringLiteral { .. } => hashed(language),
        EncodedTerm::BigBigLangStringLiteral { .. } => hashed(value) + hashed(language),
        EncodedTerm::SmallTypedLiteral { .. } => hashed(datatype),
        EncodedTerm::BigTypedLiteral { .. } => hashed(value) + hashed(datatype),
        _ => Seq::empty(),
    }
}

/// The strings of a term that its encoding keeps by their hash, in the order
/// in which they are handed to the string store.
pub open spec fn term_strings_spec(t: Term) -> Seq<(StrHash, Seq<char>)>
    decreases t,
{
    match t {
        Term::NamedNode(n) => hashed(n.iri@),
        Term::BlankNode(b) => if encode_blank_node_spec(b.id@) is BigBlankNode {
            hashed(b.id@)
        } else {
            Seq::empty()
        },
        Term::Literal(l) => literal_strings_spec(l),
        Term::Triple(tr) => term_strings_spec(tr.subject) + hashed(tr.predicate.iri@)
            + term_strings_spec(tr.object),
    }
}

pub open spec fn graph_name_strings_spec(g: GraphName) -> Seq<(StrHash, Seq<char>)> {
    match g {
        GraphName::NamedNode(n) => hashed(n.iri@),
        GraphName::BlankNode(b) => if encode_blank_node_spec(b.id@) is BigBlankNode {
            hashed(b.id@)
        } else {
            Seq::empty()
        },
        GraphName::DefaultGraph => Seq::empty(),
    }
}

pub open spec fn quad_strings_spec(q: Quad) -> Seq<(StrHash, Seq<char>)> {
    term_strings_spec(q.subject) + hashed(q.predicate.iri@) + term_strings_spec(q.object)
        + graph_name_strings_spec(q.graph_name)
}

/// Every string handed to the string store goes with its own hash.
pub proof fn lemma_term_strings_hashed(t: Term)
    ensures
        forall|i: int|
            0 <= i < term_strings_spec(t).len() ==> (#[trigger] term_strings_spec(t)[i]).0 == hash_of(
                term_strings_spec(t)[i].1,
            ),
    decreases t,
{
    if let Term::Triple(tr) = t {
        lemma_term_strings_hashed(tr.subject);
        lemma_term_strings_hashed(tr.object);
        let a = term_strings_spec(tr.subject);
        let b = hashed(tr.predicate.iri@);
        let c = term_strings_spec(tr.object);
        assert forall|i: int| 0 <= i < (a + b + c).len() implies (#[trigger] (a + b + c)[i]).0 == hash_of(
            (a + b + c)[i].1,
        ) by {
            if i < a.len() {
                assert((a + b + c)[i] == a[i]);
            } else if i < a.len() + b.len() {
                assert((a + b + c)[i] == b[i - a.len()]);
            } else {
                assert((a + b + c)[i] == c[i - a.len() - b.len()]);
            }
        }
    }
}

/// The pairs of hash and string, as values.
pub open spec fn pair_views(v: Seq<(StrHash, String)>) -> Seq<(StrHash, Seq<char>)> {
    v.map_values(|p: (StrHash, String)| (p.0, p.1@))
}

fn push_pair(sink: &mut Vec<(StrHash, String)>, value: &str)
    ensures
        pair_views(final(sink)@) == pair_views(old(sink)@) + hashed(value@),
{
    sink.push((StrHash::new(value), value.to_owned()));
    assert(pair_views(sink@) =~= pair_views(old(sink)@) + hashed(value@));
}

/// Appends to `sink` the strings that the encoding of a term keeps by their
/// hash, as pairs of hash and string.
pub fn collect_term_strings(term: &Term, encoded: &EncodedTerm, sink: &mut Vec<(StrHash, String)>)
    requires
        *encoded == encode_term_spec(*term),
    ensures
        pair_views(final(sink)@) == pair_views(old(sink)@) + term_strings_spec(*term),
    decreases term,
{
    let ghost start = pair_views(sink@);
    match term {
        Term::NamedNode(node) => {
            push_pair(sink, node.as_str());
        },
        Term::BlankNode(node) => {
            if let EncodedTerm::BigBlankNode { .. } = encoded {
                push_pair(sink, node.as_str());
            } else {
                assert(start + term_strings_spec(*term) =~= start);
            }
        },
        Term::Literal(literal) => {
            proof {
                lemma_lang_encoding_has_language(*literal);
            }
            let ghost strs = literal_strings_spec(*literal);
            assert(term_strings_spec(*term) == strs);
            match encoded {
                EncodedTerm::BigStringLiteral { .. } | EncodedTerm::BigSmallLangStringLiteral { .. } => {
                    push_pair(sink, literal.value());
                },
                EncodedTerm::SmallBigLangStringLiteral { .. } => {
                    if let Some(language) = literal.language() {
                        push_pair(sink, language);
                    }
                },
                EncodedTerm::BigBigLangStringLiteral { .. } => {
                    push_pair(sink, literal.value());
                    if let Some(language) = literal.language() {
                        push_pair(sink, language);
                    }
                    assert(pair_views(sink@) =~= start + strs);
                },
                EncodedTerm::SmallTypedLiteral { .. } => {
                    push_pair(sink, literal.datatype());
                },
                EncodedTerm::BigTypedLiteral { .. } => {
                    push_pair(sink, literal.value());
                    push_pair(sink, literal.datatype());
                    assert(pair_views(sink@) =~= start + strs);
                },
                _ => {
                    assert(strs =~= Seq::<(StrHash, Seq<char>)>::empty());
                    assert(start + strs =~= start);
                },
            }
        },
        Term::Triple(triple) => {
            if let EncodedTerm::Triple(encoded) = encoded {
                collect_term_strings(&triple.subject, &encoded.subject, sink);
                push_pair(sink, triple.predicate.as_str());
                collect_term_strings(&triple.object, &encoded.object, sink);
                assert(pair_views(sink@) =~= start + term_strings_spec(*term));
            }
        },
    }
}

/// A receiver of the strings that an encoding keeps by their hash, handed
/// over as a hash and its string; it may refuse one with an error.
pub trait StrSink {
    /// The strings handed over so far, in order, each with the answer given.
    spec fn received(&self) -> Seq<((StrHash, Seq<char>), Result<(), StorageError>)>;

    /// Takes a string and its hash, or refuses it.
    fn insert_str(&mut self, key: &StrHash, value: &str) -> (r: Result<(), StorageError>)
        ensures
            final(self).received() == old(self).received().push(((*key, value@), r)),
    ;
}

impl StrSink for Vec<(StrHash, String)> {
    /// Every string pushed, each taken.
    open spec fn received(&self) -> Seq<((StrHash, Seq<char>), Result<(), StorageError>)> {
        pair_views(self@).map_values(|p: (StrHash, Seq<char>)| (p, Ok::<(), StorageError>(())))
    }

    fn insert_str(&mut self, key: &StrHash, value: &str) -> (r: Result<(), StorageError>) {
        let ghost before = pair_views(self@);
        self.push((*key, value.to_owned()));
        assert(pair_views(self@) =~= before.push((*key, value@)));
        assert(self.received() =~= before.map_values(|p: (StrHash, Seq<char>)| (p, Ok::<(), StorageError>(()))).push(
            ((*key, value@), Ok::<(), StorageError>(())),
        ));
        Ok(())
    }
}

/// Whether `calls` are the first strings of `pairs`, in order, each taken
/// but the last, which `r` gives back refused, or all of them taken with
/// `r` being `Ok`.
pub open spec fn handed_over(
    calls: Seq<((StrHash, Seq<char>), Result<(), StorageError>)>,
    pairs: Seq<(StrHash, Seq<char>)>,
    r: Result<(), StorageError>,
) -> bool {
    &&& calls.len() <= pairs.len()
    &&& forall|i: int| 0 <= i < calls.len() ==> (#[trigger] calls[i]).0 == pairs[i]
    &&& forall|i: int| 0 <= i < calls.len() - 1 ==> (#[trigger] calls[i]).1 is Ok
    &&& match r {
        Ok(()) => calls.len() == pairs.len() && (calls.len() > 0 ==> calls.last().1 is Ok),
        Err(e) => calls.len() > 0 && calls.last().1 == Err::<(), StorageError>(e),
    }
}

/// Hands the strings that the encoding of a term keeps by their hash to a
/// sink, one after the other, and stops at the first one it refuses, whose
/// error it returns.
pub fn insert_term<S: StrSink>(term: &Term, encoded: &EncodedTerm, sink: &mut S) -> (r: Result<(), StorageError>)
    requires
        *encoded == encode_term_spec(*term),
    ensures
        final(sink).received().take(old(sink).received().len() as int) == old(sink).received(),
        handed_over(
            final(sink).received().skip(old(sink).received().len() as int),
            term_strings_spec(*term),
            r,
        ),
{
    let mut pairs: Vec<(StrHash, String)> = Vec::new();
    collect_term_strings(term, encoded, &mut pairs);
    assert(pair_views(pairs@) =~= term_strings_spec(*term));
    let ghost ps = term_strings_spec(*term);
    let ghost start = sink.received();
    let mut i: usize = 0;
    assert(sink.received().skip(start.len() as int) =~= Seq::<((StrHash, Seq<char>), Result<(), StorageError>)>::empty());
    while i < pairs.len()
        invariant
            i <= pairs@.len(),
            pair_views(pairs@) == ps,
            ps == term_strings_spec(*term),
            start == old(sink).received(),
            sink.received().len() == start.len() + i,
            sink.received().take(start.len() as int) == start,
            forall|j: int| 0 <= j < i ==> (#[trigger] sink.received().skip(start.len() as int)[j]).0 == ps[j]
                && sink.received().skip(start.len() as int)[j].1 is Ok,
        decreases pairs@.len() - i,
    {
        let ghost before = sink.received();
        let r = sink.insert_str(&pairs[i].0, pairs[i].1.as_str());
        assert(ps[i as int] == (pairs@[i as int].0, pairs@[i as int].1@));
        let ghost calls = sink.received().skip(start.len() as int);
        assert(calls =~= before.skip(start.len() as int).push(((pairs@[i as int].0, pairs@[i as int].1@), r)));
        assert(sink.received().take(start.len() as int) =~= before.take(start.len() as int));
        assert forall|j: int| 0 <= j < i implies (#[trigger] calls[j]).0 == ps[j] && calls[j].1 is Ok by {
            assert(calls[j] == before.skip(start.len() as int)[j]);
        }
        match r {
            Ok(()) => {},
            Err(e) => {
                assert(calls.last().1 == r);
                assert(handed_over(calls, ps, r));
                return Err(e);
            },
        }
        i = i + 1;
    }
    let ghost calls = sink.received().skip(start.len() as int);
    proof {
        assert(calls.len() == ps.len());
        if calls.len() > 0 {
            assert(calls[calls.len() - 1].1 is Ok);
        }
    }
    Ok(())
}

pub open spec fn named_or_blank_node_strings_spec(g: NamedOrBlankNode) -> Seq<(StrHash, Seq<char>)> {
    match g {
        NamedOrBlankNode::NamedNode(n) => hashed(n.iri@),
        NamedOrBlankNode::BlankNode(b) => if encode_blank_node_spec(b.id@) is BigBlankNode {
            hashed(b.id@)
        } else {
            Seq::empty()
        },
    }
}

/// The encoding of a graph name that is an IRI or a blank node is well formed.
pub proof fn lemma_encode_named_or_blank_node_wf(g: NamedOrBlankNode)
    ensures
        term_wf(encode_named_or_blank_node_spec(g)),
        !(encode_named_or_blank_node_spec(g) is DefaultGraph),
{
    if let NamedOrBlankNode::BlankNode(b) = g {
        if fits_small(b.id@) {
            lemma_small_of_wf(b.id@);
        }
    }
}

/// Hands the strings of an IRI or blank node kept by their hash to the string store.
pub fn insert_named_or_blank_node(node: &NamedOrBlankNode, encoded: &EncodedTerm, sink: &mut Vec<(StrHash, String)>)
    requires
        *encoded == encode_named_or_blank_node_spec(*node),
    ensures
        pair_views(final(sink)@) == pair_views(old(sink)@) + named_or_blank_node_strings_spec(*node),
{
    match node {
        NamedOrBlankNode::NamedNode(n) => push_pair(sink, n.as_str()),
        NamedOrBlankNode::BlankNode(b) => {
            if let EncodedTerm::BigBlankNode { .. } = encoded {
                push_pair(sink, b.as_str());
            } else {
                assert(pair_views(sink@) + named_or_blank_node_strings_spec(*node) =~= pair_views(sink@));
            }
        },
    }
}

/// Hands the strings of a graph name kept by their hash to the string store.
pub fn insert_graph_name(name: &GraphName, encoded: &EncodedTerm, sink: &mut Vec<(StrHash, String)>)
    requires
        *encoded == encode_graph_name_spec(*name),
    ensures
        pair_views(final(sink)@) == pair_views(old(sink)@) + graph_name_strings_spec(*name),
{
    match name {
        GraphName::NamedNode(n) => push_pair(sink, n.as_str()),
        GraphName::BlankNode(b) => {
            if let EncodedTerm::BigBlankNode { .. } = encoded {
                push_pair(sink, b.as_str());
            } else {
                assert(pair_views(sink@) + graph_name_strings_spec(*name) =~= pair_views(sink@));
            }
        },
        GraphName::DefaultGraph => {
            assert(pair_views(sink@) + graph_name_strings_spec(*name) =~= pair_views(sink@));
        },
    }
}

/// Hands the strings of a quad kept by their hash to the string store.
pub fn insert_quad_strings(quad: &Quad, encoded: &EncodedQuad, sink: &mut Vec<(StrHash, String)>)
    requires
        *encoded == encode_quad_spec(*quad),
    ensures
        pair_views(final(sink)@) == pair_views(old(sink)@) + quad_strings_spec(*quad),
{
    let ghost start = pair_views(sink@);
    collect_term_strings(&quad.subject, &encoded.subject, sink);
    push_pair(sink, quad.predicate.as_str());
    collect_term_strings(&quad.object, &encoded.object, sink);
    insert_graph_name(&quad.graph_name, &encoded.graph_name, sink);
    assert(pair_views(sink@) =~= start + quad_strings_spec(*quad));
}

} // verus!
