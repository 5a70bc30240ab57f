//! The binary serialization of encoded terms and quads, used as keys of the
//! quad indexes: a type byte followed by the fixed-size payload of the term.

use vstd::prelude::*;
use crate::endian::{
    array_from_seq, i64_from_be, i64_from_be_bytes, i64_to_be, i64_to_be_bytes, u128_from_be,
    u128_from_be_bytes, u128_to_be, u128_to_be_bytes,
};
use crate::error::{CorruptionError, StorageError};
use crate::numeric_encoder::{term_wf, EncodedQuad, EncodedTerm, EncodedTriple};
use crate::small_string::{small_string_bytes_valid, SmallString};
use crate::str_hash::StrHash;

verus! {

broadcast use vstd::array::group_array_axioms;

/// The version of the storage format.
pub const LATEST_STORAGE_VERSION: u64 = 1;

/// The largest size of a serialized term that is not a triple.
pub const WRITTEN_TERM_MAX_SIZE: usize = 33;

// Encoded term type blocks
// 1-7: usual named nodes (except prefixes c.f. later)
// 8-15: blank nodes
// 16-47: literals
// 48-55: triples
// 56-64: future use
// 64-127: default named node prefixes
// 128-255: custom named node prefixes
pub const TYPE_NAMED_NODE_ID: u8 = 1;
pub const TYPE_NUMERICAL_BLANK_NODE_ID: u8 = 8;
pub const TYPE_SMALL_BLANK_NODE_ID: u8 = 9;
pub const TYPE_BIG_BLANK_NODE_ID: u8 = 10;
pub const TYPE_SMALL_STRING_LITERAL: u8 = 16;
pub const TYPE_BIG_STRING_LITERAL: u8 = 17;
pub const TYPE_SMALL_SMALL_LANG_STRING_LITERAL: u8 = 20;
pub const TYPE_SMALL_BIG_LANG_STRING_LITERAL: u8 = 21;
pub const TYPE_BIG_SMALL_LANG_STRING_LITERAL: u8 = 22;
pub const TYPE_BIG_BIG_LANG_STRING_LITERAL: u8 = 23;
pub const TYPE_SMALL_TYPED_LITERAL: u8 = 24;
pub const TYPE_BIG_TYPED_LITERAL: u8 = 25;
pub const TYPE_BOOLEAN_LITERAL_TRUE: u8 = 28;
pub const TYPE_BOOLEAN_LITERAL_FALSE: u8 = 29;
pub const TYPE_FLOAT_LITERAL: u8 = 30;
pub const TYPE_DOUBLE_LITERAL: u8 = 31;
pub const TYPE_INTEGER_LITERAL: u8 = 32;
pub const TYPE_DECIMAL_LITERAL: u8 = 33;
pub const TYPE_DATE_TIME_LITERAL: u8 = 34;
pub const TYPE_TIME_LITERAL: u8 = 35;
pub const TYPE_DATE_LITERAL: u8 = 36;
pub const TYPE_G_YEAR_MONTH_LITERAL: u8 = 37;
pub const TYPE_G_YEAR_LITERAL: u8 = 38;
pub const TYPE_G_MONTH_DAY_LITERAL: u8 = 39;
pub const TYPE_G_DAY_LITERAL: u8 = 40;
pub const TYPE_G_MONTH_LITERAL: u8 = 41;
pub const TYPE_DURATION_LITERAL: u8 = 42;
pub const TYPE_YEAR_MONTH_DURATION_LITERAL: u8 = 43;
pub const TYPE_DAY_TIME_DURATION_LITERAL: u8 = 44;
pub const TYPE_TRIPLE: u8 = 48;

/// The serialization of a term: its type byte, then its payload. The
/// default graph marker writes nothing; a triple writes its three terms.
pub open spec fn term_bytes(t: EncodedTerm) -> Seq<u8>
    decreases t,
{
    match t {
        EncodedTerm::DefaultGraph => Seq::empty(),
        EncodedTerm::NamedNode { iri_id } => seq![TYPE_NAMED_NODE_ID] + iri_id.bytes(),
        EncodedTerm::NumericalBlankNode { id } => seq![TYPE_NUMERICAL_BLANK_NODE_ID] + u128_to_be(id),
        EncodedTerm::SmallBlankNode(s) => seq![TYPE_SMALL_BLANK_NODE_ID] + s.bytes(),
        EncodedTerm::BigBlankNode { id_id } => seq![TYPE_BIG_BLANK_NODE_ID] + id_id.bytes(),
        EncodedTerm::SmallStringLiteral(s) => seq![TYPE_SMALL_STRING_LITERAL] + s.bytes(),
        EncodedTerm::BigStringLiteral { value_id } => seq![TYPE_BIG_STRING_LITERAL]
            + value_id.bytes(),
        EncodedTerm::SmallSmallLangStringLiteral { value, language } => seq![
            TYPE_SMALL_SMALL_LANG_STRING_LITERAL,
        ] + language.bytes() + value.bytes(),
        EncodedTerm::SmallBigLangStringLiteral { value, language_id } => seq![
            TYPE_SMALL_BIG_LANG_STRING_LITERAL,
        ] + language_id.bytes() + value.bytes(),
        EncodedTerm::BigSmallLangStringLiteral { value_id, language } => seq![
            TYPE_BIG_SMALL_LANG_STRING_LITERAL,
        ] + language.bytes() + value_id.bytes(),
        EncodedTerm::BigBigLangStringLiteral { value_id, language_id } => seq![
            TYPE_BIG_BIG_LANG_STRING_LITERAL,
        ] + language_id.bytes() + value_id.bytes(),
        EncodedTerm::SmallTypedLiteral { value, datatype_id } => seq![TYPE_SMALL_TYPED_LITERAL]
            + datatype_id.bytes() + value.bytes(),
        EncodedTerm::BigTypedLiteral { value_id, datatype_id } => seq![TYPE_BIG_TYPED_LITERAL]
            + datatype_id.bytes() + value_id.bytes(),
        EncodedTerm::BooleanLiteral(v) => if v {
            seq![TYPE_BOOLEAN_LITERAL_TRUE]
        } else {
            seq![TYPE_BOOLEAN_LITERAL_FALSE]
        },
        EncodedTerm::FloatLiteral(v) => seq![TYPE_FLOAT_LITERAL] + v@,
        EncodedTerm::DoubleLiteral(v) => seq![TYPE_DOUBLE_LITERAL] + v@,
        EncodedTerm::IntegerLiteral(v) => seq![TYPE_INTEGER_LITERAL] + i64_to_be(v),
        EncodedTerm::DecimalLiteral(v) => seq![TYPE_DECIMAL_LITERAL] + v@,
        EncodedTerm::DateTimeLiteral(v) => seq![TYPE_DATE_TIME_LITERAL] + v@,
        EncodedTerm::TimeLiteral(v) => seq![TYPE_TIME_LITERAL] + v@,
        EncodedTerm::DateLiteral(v) => seq![TYPE_DATE_LITERAL] + v@,
        EncodedTerm::GYearMonthLiteral(v) => seq![TYPE_G_YEAR_MONTH_LITERAL] + v@,
        EncodedTerm::GYearLiteral(v) => seq![TYPE_G_YEAR_LITERAL] + v@,
        EncodedTerm::GMonthDayLiteral(v) => seq![TYPE_G_MONTH_DAY_LITERAL] + v@,
        EncodedTerm::GDayLiteral(v) => seq![TYPE_G_DAY_LITERAL] + v@,
        EncodedTerm::GMonthLiteral(v) => seq![TYPE_G_MONTH_LITERAL] + v@,
        EncodedTerm::DurationLiteral(v) => seq![TYPE_DURATION_LITERAL] + v@,
        EncodedTerm::YearMonthDurationLiteral(v) => seq![TYPE_YEAR_MONTH_DURATION_LITERAL] + v@,
        EncodedTerm::DayTimeDurationLiteral(v) => seq![TYPE_DAY_TIME_DURATION_LITERAL] + v@,
        EncodedTerm::Triple(t) => seq![TYPE_TRIPLE] + term_bytes(t.subject) + term_bytes(
            t.predicate,
        ) + term_bytes(t.object),
    }
}

fn push_bytes(sink: &mut Vec<u8>, bytes: &[u8])
    ensures
        final(sink)@ == old(sink)@ + bytes@,
{
    let mut i: usize = 0;
    while i < bytes.len()
        invariant
            i <= bytes@.len(),
            sink@ == old(sink)@ + bytes@.take(i as int),
        decreases bytes@.len() - i,
    {
        sink.push(bytes[i]);
        i = i + 1;
        proof {
            assert(bytes@.take(i as int) =~= bytes@.take(i - 1) + seq![bytes@[i - 1]]);
        }
    }
    proof {
        assert(bytes@.take(i as int) =~= bytes@);
    }
}

/// Appends the serialization of a term.
pub fn write_term(sink: &mut Vec<u8>, term: &EncodedTerm)
    ensures
        final(sink)@ == old(sink)@ + term_bytes(*term),
    decreases term,
{
    let ghost start = sink@;
    match term {
        EncodedTerm::DefaultGraph => {
            assert(sink@ =~= start + term_bytes(*term));
        },
        EncodedTerm::NamedNode { iri_id } => {
            sink.push(TYPE_NAMED_NODE_ID);
            push_bytes(sink, iri_id.to_be_bytes().as_slice());
            assert(sink@ =~= start + term_bytes(*term));
        },
        EncodedTerm::NumericalBlankNode { id } => {
            sink.push(TYPE_NUMERICAL_BLANK_NODE_ID);
            push_bytes(sink, u128_to_be_bytes(*id).as_slice());
            assert(sink@ =~= start + term_bytes(*term));
        },
        EncodedTerm::SmallBlankNode(id) => {
            sink.push(TYPE_SMALL_BLANK_NODE_ID);
            push_bytes(sink, id.to_be_bytes().as_slice());
            assert(sink@ =~= start + term_bytes(*term));
        },
        EncodedTerm::BigBlankNode { id_id } => {
            sink.push(TYPE_BIG_BLANK_NODE_ID);
            push_bytes(sink, id_id.to_be_bytes().as_slice());
            assert(sink@ =~= start + term_bytes(*term));
        },
        EncodedTerm::SmallStringLiteral(value) => {
            sink.push(TYPE_SMALL_STRING_LITERAL);
            push_bytes(sink, value.to_be_bytes().as_slice());
            assert(sink@ =~= start + term_bytes(*term));
        },
        EncodedTerm::BigStringLiteral { value_id } => {
            sink.push(TYPE_BIG_STRING_LITERAL);
            push_bytes(sink, value_id.to_be_bytes().as_slice());
            assert(sink@ =~= start + term_bytes(*term));
        },
        EncodedTerm::SmallSmallLangStringLiteral { value, language } => {
            sink.push(TYPE_SMALL_SMALL_LANG_STRING_LITERAL);
            push_bytes(sink, language.to_be_bytes().as_slice());
            push_bytes(sink, value.to_be_bytes().as_slice());
            assert(sink@ =~= start + term_bytes(*term));
        },
        EncodedTerm::SmallBigLangStringLiteral { value, language_id } => {
            sink.push(TYPE_SMALL_BIG_LANG_STRING_LITERAL);
            push_bytes(sink, language_id.to_be_bytes().as_slice());
            push_bytes(sink, value.to_be_bytes().as_slice());
            assert(sink@ =~= start + term_bytes(*term));
        },
        EncodedTerm::BigSmallLangStringLiteral { value_id, language } => {
            sink.push(TYPE_BIG_SMALL_LANG_STRING_LITERAL);
            push_bytes(sink, language.to_be_bytes().as_slice());
            push_bytes(sink, value_id.to_be_bytes().as_slice());
            assert(sink@ =~= start + term_bytes(*term));
        },
        EncodedTerm::BigBigLangStringLiteral { value_id, language_id } => {
            sink.push(TYPE_BIG_BIG_LANG_STRING_LITERAL);
            push_bytes(sink, language_id.to_be_bytes().as_slice());
            push_bytes(sink, value_id.to_be_bytes().as_slice());
            assert(sink@ =~= start + term_bytes(*term));
        },
        EncodedTerm::SmallTypedLiteral { value, datatype_id } => {
            sink.push(TYPE_SMALL_TYPED_LITERAL);
            push_bytes(sink, datatype_id.to_be_bytes().as_slice());
            push_bytes(sink, value.to_be_bytes().as_slice());
            assert(sink@ =~= start + term_bytes(*term));
        },
        EncodedTerm::BigTypedLiteral { value_id, datatype_id } => {
            sink.push(TYPE_BIG_TYPED_LITERAL);
            push_bytes(sink, datatype_id.to_be_bytes().as_slice());
            push_bytes(sink, value_id.to_be_bytes().as_slice());
            assert(sink@ =~= start + term_bytes(*term));
        },
        EncodedTerm::BooleanLiteral(value) => {
            sink.push(
                if *value {
                    TYPE_BOOLEAN_LITERAL_TRUE
                } else {
                    TYPE_BOOLEAN_LITERAL_FALSE
                },
            );
            assert(sink@ =~= start + term_bytes(*term));
        },
        EncodedTerm::FloatLiteral(value) => {
            sink.push(TYPE_FLOAT_LITERAL);
            push_bytes(sink, value.as_slice());
            assert(sink@ =~= start + term_bytes(*term));
        },
        EncodedTerm::DoubleLiteral(value) => {
            sink.push(TYPE_DOUBLE_LITERAL);
            push_bytes(sink, value.as_slice());
            assert(sink@ =~= start + term_bytes(*term));
        },
        EncodedTerm::IntegerLiteral(value) => {
            sink.push(TYPE_INTEGER_LITERAL);
            push_bytes(sink, i64_to_be_bytes(*value).as_slice());
            assert(sink@ =~= start + term_bytes(*term));
        },
        EncodedTerm::DecimalLiteral(value) => {
            sink.push(TYPE_DECIMAL_LITERAL);
            push_bytes(sink, value.as_slice());
            assert(sink@ =~= start + term_bytes(*term));
        },
        EncodedTerm::DateTimeLiteral(value) => {
            sink.push(TYPE_DATE_TIME_LITERAL);
            push_bytes(sink, value.as_slice());
            assert(sink@ =~= start + term_bytes(*term));
        },
        EncodedTerm::TimeLiteral(value) => {
            sink.push(TYPE_TIME_LITERAL);
            push_bytes(sink, value.as_slice());
            assert(sink@ =~= start + term_bytes(*term));
        },
        EncodedTerm::DurationLiteral(value) => {
            sink.push(TYPE_DURATION_LITERAL);
            push_bytes(sink, value.as_slice());
            assert(sink@ =~= start + term_bytes(*term));
        },
        EncodedTerm::DateLiteral(value) => {
            sink.push(TYPE_DATE_LITERAL);
            push_bytes(sink, value.as_slice());
            assert(sink@ =~= start + term_bytes(*term));
        },
        EncodedTerm::GYearMonthLiteral(value) => {
            sink.push(TYPE_G_YEAR_MONTH_LITERAL);
            push_bytes(sink, value.as_slice());
            assert(sink@ =~= start + term_bytes(*term));
        },
        EncodedTerm::GYearLiteral(value) => {
            sink.push(TYPE_G_YEAR_LITERAL);
            push_bytes(sink, value.as_slice());
            assert(sink@ =~= start + term_bytes(*term));
        },
        EncodedTerm::GMonthDayLiteral(value) => {
            sink.push(TYPE_G_MONTH_DAY_LITERAL);
            push_bytes(sink, value.as_slice());
            assert(sink@ =~= start + term_bytes(*term));
        },
        EncodedTerm::GDayLiteral(value) => {
            sink.push(TYPE_G_DAY_LITERAL);
            push_bytes(sink, value.as_slice());
            assert(sink@ =~= start + term_bytes(*term));
        },
        EncodedTerm::GMonthLiteral(value) => {
            sink.push(TYPE_G_MONTH_LITERAL);
            push_bytes(sink, value.as_slice());
            assert(sink@ =~= start + term_bytes(*term));
        },
        EncodedTerm::YearMonthDurationLiteral(value) => {
            sink.push(TYPE_YEAR_MONTH_DURATION_LITERAL);
            push_bytes(sink, value.as_slice());
            assert(sink@ =~= start + term_bytes(*term));
        },
        EncodedTerm::DayTimeDurationLiteral(value) => {
            sink.push(TYPE_DAY_TIME_DURATION_LITERAL);
            push_bytes(sink, value.as_slice());
            assert(sink@ =~= start + term_bytes(*term));
        },
        EncodedTerm::Triple(value) => {
            sink.push(TYPE_TRIPLE);
            write_term(sink, &value.subject);
            write_term(sink, &value.predicate);
            write_term(sink, &value.object);
            assert(sink@ =~= start + term_bytes(*term));
        },
    }
}


/// The outcome of reading a term from the start of a byte sequence.
pub enum TermRead {
    /// The term read, and the bytes that follow it.
    Read(EncodedTerm, Seq<u8>),
    /// The bytes end before the term does.
    Eof,
    /// The first byte is no term type id.
    InvalidTypeId,
    /// An inline string of the term has a length byte above 15 or is not
    /// valid UTF-8.
    InvalidSmallString,
}

/// Whether 16 stored bytes hold a valid inline string.
pub open spec fn small_ok(b: Seq<u8>) -> bool {
    small_string_bytes_valid(b)
}

/// The outcome of reading 16 stored bytes that do not hold a valid inline string.
pub open spec fn small_failure(b: Seq<u8>) -> TermRead {
    TermRead::InvalidSmallString
}

/// Reads a term that is not a triple, `r` being the bytes after its type byte `id`.
#[verifier::opaque]
pub open spec fn read_flat_term(id: u8, r: Seq<u8>) -> TermRead {
    if id == TYPE_NAMED_NODE_ID {
        if r.len() < 16 {
            TermRead::Eof
        } else {
            TermRead::Read(
                EncodedTerm::NamedNode { iri_id: StrHash::from_bytes_spec(r.take(16)) },
                r.skip(16),
            )
        }
    } else if id == TYPE_NUMERICAL_BLANK_NODE_ID {
        if r.len() < 16 {
            TermRead::Eof
        } else {
            TermRead::Read(EncodedTerm::NumericalBlankNode { id: u128_from_be(r.take(16)) }, r.skip(16))
        }
    } else if id == TYPE_SMALL_BLANK_NODE_ID {
        if r.len() < 16 {
            TermRead::Eof
        } else if !small_ok(r.take(16)) {
            small_failure(r.take(16))
        } else {
            TermRead::Read(
                EncodedTerm::SmallBlankNode(SmallString::from_bytes_spec(r.take(16))),
                r.skip(16),
            )
        }
    } else if id == TYPE_BIG_BLANK_NODE_ID {
        if r.len() < 16 {
            TermRead::Eof
        } else {
            TermRead::Read(
                EncodedTerm::BigBlankNode { id_id: StrHash::from_bytes_spec(r.take(16)) },
                r.skip(16),
            )
        }
    } else if id == TYPE_SMALL_SMALL_LANG_STRING_LITERAL {
        if r.len() < 32 {
            TermRead::Eof
        } else if !small_ok(r.subrange(16, 32)) {
            small_failure(r.subrange(16, 32))
        } else if !small_ok(r.take(16)) {
            small_failure(r.take(16))
        } else {
            TermRead::Read(
                EncodedTerm::SmallSmallLangStringLiteral {
                    value: SmallString::from_bytes_spec(r.subrange(16, 32)),
                    language: SmallString::from_bytes_spec(r.take(16)),
                },
                r.skip(32),
            )
        }
    } else if id == TYPE_SMALL_BIG_LANG_STRING_LITERAL {
        if r.len() < 32 {
            TermRead::Eof
        } else if !small_ok(r.subrange(16, 32)) {
            small_failure(r.subrange(16, 32))
        } else {
            TermRead::Read(
                EncodedTerm::SmallBigLangStringLiteral {
                    value: SmallString::from_bytes_spec(r.subrange(16, 32)),
                    language_id: StrHash::from_bytes_spec(r.take(16)),
                },
                r.skip(32),
            )
        }
    } else if id == TYPE_BIG_SMALL_LANG_STRING_LITERAL {
        if r.len() < 32 {
            TermRead::Eof
        } else if !small_ok(r.take(16)) {
            small_failure(r.take(16))
        } else {
            TermRead::Read(
                EncodedTerm::BigSmallLangStringLiteral {
                    value_id: StrHash::from_bytes_spec(r.subrange(16, 32)),
                    language: SmallString::from_bytes_spec(r.take(16)),
                },
                r.skip(32),
            )
        }
    } else if id == TYPE_BIG_BIG_LANG_STRING_LITERAL {
        if r.len() < 32 {
            TermRead::Eof
        } else {
            TermRead::Read(
                EncodedTerm::BigBigLangStringLiteral {
                    value_id: StrHash::from_bytes_spec(r.subrange(16, 32)),
                    language_id: StrHash::from_bytes_spec(r.take(16)),
                },
                r.skip(32),
            )
        }
    } else if id == TYPE_SMALL_TYPED_LITERAL {
        if r.len() < 32 {
            TermRead::Eof
        } else if !small_ok(r.subrange(16, 32)) {
            small_failure(r.subrange(16, 32))
        } else {
            TermRead::Read(
                EncodedTerm::SmallTypedLiteral {
                    value: SmallString::from_bytes_spec(r.subrange(16, 32)),
                    datatype_id: StrHash::from_bytes_spec(r.take(16)),
                },
                r.skip(32),
            )
        }
    } else if id == TYPE_BIG_TYPED_LITERAL {
        if r.len() < 32 {
            TermRead::Eof
        } else {
            TermRead::Read(
                EncodedTerm::BigTypedLiteral {
                    value_id: StrHash::from_bytes_spec(r.subrange(16, 32)),
                    datatype_id: StrHash::from_bytes_spec(r.take(16)),
                },
                r.skip(32),
            )
        }
    } else if id == TYPE_SMALL_STRING_LITERAL {
        if r.len() < 16 {
            TermRead::Eof
        } else if !small_ok(r.take(16)) {
            small_failure(r.take(16))
        } else {
            TermRead::Read(
                EncodedTerm::SmallStringLiteral(SmallString::from_bytes_spec(r.take(16))),
                r.skip(16),
            )
        }
    } else if id == TYPE_BIG_STRING_LITERAL {
        if r.len() < 16 {
            TermRead::Eof
        } else {
            TermRead::Read(
                EncodedTerm::BigStringLiteral { value_id: StrHash::from_bytes_spec(r.take(16)) },
                r.skip(16),
            )
        }
    } else if id == TYPE_BOOLEAN_LITERAL_TRUE {
        TermRead::Read(EncodedTerm::BooleanLiteral(true), r)
    } else if id == TYPE_BOOLEAN_LITERAL_FALSE {
        TermRead::Read(EncodedTerm::BooleanLiteral(false), r)
    } else if id == TYPE_FLOAT_LITERAL {
        if r.len() < 4 {
            TermRead::Eof
        } else {
            TermRead::Read(EncodedTerm::FloatLiteral(array_from_seq::<4>(r.take(4))), r.skip(4))
        }
    } else if id == TYPE_DOUBLE_LITERAL {
        if r.len() < 8 {
            TermRead::Eof
        } else {
            TermRead::Read(EncodedTerm::DoubleLiteral(array_from_seq::<8>(r.take(8))), r.skip(8))
        }
    } else if id == TYPE_INTEGER_LITERAL {
        if r.len() < 8 {
            TermRead::Eof
        } else {
            TermRead::Read(EncodedTerm::IntegerLiteral(i64_from_be(r.take(8))), r.skip(8))
        }
    } else if id == TYPE_DECIMAL_LITERAL {
        if r.len() < 16 {
            TermRead::Eof
        } else {
            TermRead::Read(
                EncodedTerm::DecimalLiteral(array_from_seq::<16>(r.take(16))),
                r.skip(16),
            )
        }
    } else if id == TYPE_DATE_TIME_LITERAL {
        if r.len() < 18 {
            TermRead::Eof
        } else {
            TermRead::Read(
                EncodedTerm::DateTimeLiteral(array_from_seq::<18>(r.take(18))),
                r.skip(18),
            )
        }
    } else if id == TYPE_TIME_LITERAL {
        if r.len() < 18 {
            TermRead::Eof
        } else {
            TermRead::Read(EncodedTerm::TimeLiteral(array_from_seq::<18>(r.take(18))), r.skip(18))
        }
    } else if id == TYPE_DATE_LITERAL {
        if r.len() < 18 {
            TermRead::Eof
        } else {
            TermRead::Read(EncodedTerm::DateLiteral(array_from_seq::<18>(r.take(18))), r.skip(18))
        }
    } else if id == TYPE_G_YEAR_MONTH_LITERAL {
        if r.len() < 18 {
            TermRead::Eof
        } else {
            TermRead::Read(
                EncodedTerm::GYearMonthLiteral(array_from_seq::<18>(r.take(18))),
                r.skip(18),
            )
        }
    } else if id == TYPE_G_YEAR_LITERAL {
        if r.len() < 18 {
            TermRead::Eof
        } else {
            TermRead::Read(EncodedTerm::GYearLiteral(array_from_seq::<18>(r.take(18))), r.skip(18))
        }
    } else if id == TYPE_G_MONTH_DAY_LITERAL {
        if r.len() < 18 {
            TermRead::Eof
        } else {
            TermRead::Read(
                EncodedTerm::GMonthDayLiteral(array_from_seq::<18>(r.take(18))),
                r.skip(18),
            )
        }
    } else if id == TYPE_G_DAY_LITERAL {
        if r.len() < 18 {
            TermRead::Eof
        } else {
            TermRead::Read(EncodedTerm::GDayLiteral(array_from_seq::<18>(r.take(18))), r.skip(18))
        }
    } else if id == TYPE_G_MONTH_LITERAL {
        if r.len() < 18 {
            TermRead::Eof
        } else {
            TermRead::Read(
                EncodedTerm::GMonthLiteral(array_from_seq::<18>(r.take(18))),
                r.skip(18),
            )
        }
    } else if id == TYPE_DURATION_LITERAL {
        if r.len() < 24 {
            TermRead::Eof
        } else {
            TermRead::Read(
                EncodedTerm::DurationLiteral(array_from_seq::<24>(r.take(24))),
                r.skip(24),
            )
        }
    } else if id == TYPE_YEAR_MONTH_DURATION_LITERAL {
        if r.len() < 8 {
            TermRead::Eof
        } else {
            TermRead::Read(
                EncodedTerm::YearMonthDurationLiteral(array_from_seq::<8>(r.take(8))),
                r.skip(8),
            )
        }
    } else if id == TYPE_DAY_TIME_DURATION_LITERAL {
        if r.len() < 16 {
            TermRead::Eof
        } else {
            TermRead::Read(
                EncodedTerm::DayTimeDurationLiteral(array_from_seq::<16>(r.take(16))),
                r.skip(16),
            )
        }
    } else {
        TermRead::InvalidTypeId
    }
}

/// Reads a term from the start of `s`. A triple reads its subject,
/// predicate and object in turn; the first failure is the outcome.
pub open spec fn read_term_spec(s: Seq<u8>) -> TermRead
    decreases s.len(),
{
    if s.len() == 0 {
        TermRead::Eof
    } else if s[0] == TYPE_TRIPLE {
        let r = s.drop_first();
        match read_term_spec(r) {
            TermRead::Read(a, r1) => if r1.len() < r.len() {
                match read_term_spec(r1) {
                    TermRead::Read(b, r2) => if r2.len() < r1.len() {
                        match read_term_spec(r2) {
                            TermRead::Read(c, r3) => TermRead::Read(
                                EncodedTerm::Triple(
                                    Box::new(EncodedTriple { subject: a, predicate: b, object: c }),
                                ),
                                r3,
                            ),
                            e => e,
                        }
                    } else {
                        TermRead::Eof
                    },
                    e => e,
                }
            } else {
                TermRead::Eof
            },
            e => e,
        }
    } else {
        read_flat_term(s[0], s.drop_first())
    }
}

/// A successful read consumes at least one byte and leaves a suffix of the input.
pub proof fn lemma_read_consumes(s: Seq<u8>)
    ensures
        read_term_spec(s) matches TermRead::Read(_, rest) ==> rest.len() < s.len() && rest
            == s.skip(s.len() - rest.len()),
    decreases s.len(),
{
    if s.len() > 0 {
        let r = s.drop_first();
        if s[0] == TYPE_TRIPLE {
            lemma_read_consumes(r);
            if let TermRead::Read(_, r1) = read_term_spec(r) {
                lemma_read_consumes(r1);
                if let TermRead::Read(_, r2) = read_term_spec(r1) {
                    lemma_read_consumes(r2);
                    if let TermRead::Read(_, r3) = read_term_spec(r2) {
                        assert(r3 =~= s.skip(s.len() - r3.len()));
                    }
                }
            }
        } else {
            reveal(read_flat_term);
            if let TermRead::Read(_, rest) = read_term_spec(s) {
                assert(rest =~= s.skip(s.len() - rest.len()));
            }
        }
    }
}

/// Whether `r` is what reading a term from `buf` gives when the spec reads `p`.
pub open spec fn read_result_matches(
    p: TermRead,
    r: Result<(EncodedTerm, usize), StorageError>,
    buf: Seq<u8>,
) -> bool {
    match p {
        TermRead::Read(t, rest) => r matches Ok((t2, q)) && t2 == t && q <= buf.len() && rest
            == buf.skip(q as int),
        TermRead::Eof => r matches Err(StorageError::UnexpectedEof),
        TermRead::InvalidTypeId => r matches Err(
            StorageError::Corruption(CorruptionError::InvalidTypeId),
        ),
        TermRead::InvalidSmallString => r matches Err(
            StorageError::Corruption(CorruptionError::InvalidSmallString(_)),
        ),
    }
}

proof fn lemma_window(buf: Seq<u8>, pos: int)
    requires
        0 <= pos < buf.len(),
    ensures
        buf.skip(pos).drop_first() == buf.skip(pos + 1),
        buf.skip(pos)[0] == buf[pos],
        forall|a: int, b: int|
            0 <= a <= b <= buf.len() - pos - 1 ==> #[trigger] buf.skip(pos + 1).subrange(a, b)
                == buf.subrange(pos + 1 + a, pos + 1 + b),
        forall|a: int|
            0 <= a <= buf.len() - pos - 1 ==> #[trigger] buf.skip(pos + 1).skip(a) == buf.skip(
                pos + 1 + a,
            ),
{
    assert(buf.skip(pos).drop_first() =~= buf.skip(pos + 1));
    assert forall|a: int, b: int| 0 <= a <= b <= buf.len() - pos - 1 implies #[trigger] buf.skip(
        pos + 1,
    ).subrange(a, b) == buf.subrange(pos + 1 + a, pos + 1 + b) by {
        assert(buf.skip(pos + 1).subrange(a, b) =~= buf.subrange(pos + 1 + a, pos + 1 + b));
    }
    assert forall|a: int| 0 <= a <= buf.len() - pos - 1 implies #[trigger] buf.skip(pos + 1).skip(
        a,
    ) == buf.skip(pos + 1 + a) by {
        assert(buf.skip(pos + 1).skip(a) =~= buf.skip(pos + 1 + a));
    }
}

/// The `N` bytes of `buf` from `pos`.
fn read_array<const N: usize>(buf: &[u8], pos: usize) -> (r: [u8; N])
    requires
        pos + N <= buf@.len(),
    ensures
        r@ == buf@.subrange(pos as int, pos + N),
{
    let mut r = vstd::array::array_fill_for_copy_types::<u8, N>(0u8);
    let _len = buf.len();
    proof {
        vstd::array::array_len_matches_n(&r);
    }
    let mut i: usize = 0;
    while i < N
        invariant
            pos + N <= buf@.len(),
            buf@.len() <= usize::MAX,
            i <= N,
            r@.len() == N,
            forall|j: int| 0 <= j < i ==> r@[j] == buf@[pos + j],
        decreases N - i,
    {
        r[i] = buf[pos + i];
        i = i + 1;
    }
    proof {
        assert(r@ =~= buf@.subrange(pos as int, pos + N));
    }
    r
}

fn read_hash(buf: &[u8], pos: usize) -> (r: StrHash)
    requires
        pos + 16 <= buf@.len(),
    ensures
        r == StrHash::from_bytes_spec(buf@.subrange(pos as int, pos + 16)),
{
    StrHash::from_be_bytes(read_array::<16>(buf, pos))
}

fn read_small(buf: &[u8], pos: usize) -> (r: Result<SmallString, StorageError>)
    requires
        pos + 16 <= buf@.len(),
    ensures
        r is Ok <==> small_ok(buf@.subrange(pos as int, pos + 16)),
        r matches Ok(s) ==> s == SmallString::from_bytes_spec(buf@.subrange(pos as int, pos + 16)),
        r matches Err(e) ==> e matches StorageError::Corruption(
            CorruptionError::InvalidSmallString(_),
        ),
{
    let bytes = read_array::<16>(buf, pos);
    match SmallString::from_be_bytes(bytes) {
        Ok(s) => {
            proof {
                SmallString::lemma_from_bytes_spec(bytes@);
                s.lemma_bytes_injective(SmallString::from_bytes_spec(bytes@));
            }
            Ok(s)
        },
        Err(e) => Err(StorageError::Corruption(CorruptionError::InvalidSmallString(e))),
    }
}

fn read_array_term<const N: usize>(buf: &[u8], pos: usize) -> (r: Option<[u8; N]>)
    requires
        pos <= buf@.len(),
    ensures
        r is Some <==> pos + N <= buf@.len(),
        r matches Some(a) ==> a == array_from_seq::<N>(buf@.subrange(pos as int, pos + N)),
{
    if buf.len() - pos < N {
        None
    } else {
        let a = read_array::<N>(buf, pos);
        proof {
            crate::endian::lemma_array_from_seq::<N>(a@);
            crate::endian::lemma_array_view_injective(
                a,
                array_from_seq::<N>(buf@.subrange(pos as int, pos + N)),
            );
        }
        Some(a)
    }
}


/// Reads the term serialized at `pos` in `buf`, and the position after it.
pub fn read_term_at(buf: &[u8], pos: usize) -> (r: Result<(EncodedTerm, usize), StorageError>)
    requires
        pos <= buf@.len(),
    ensures
        read_result_matches(read_term_spec(buf@.skip(pos as int)), r, buf@),
    decreases buf@.len() - pos,
{
    let len = buf.len();
    if pos >= len {
        return Err(StorageError::UnexpectedEof);
    }
    let id = buf[pos];
    let p = pos + 1;
    proof {
        lemma_window(buf@, pos as int);
    }
    if id == TYPE_TRIPLE {
        let (subject, p1) = match read_term_at(buf, p) {
            Ok(x) => x,
            Err(e) => return Err(e),
        };
        proof {
            lemma_read_consumes(buf@.skip(p as int));
        }
        let (predicate, p2) = match read_term_at(buf, p1) {
            Ok(x) => x,
            Err(e) => return Err(e),
        };
        proof {
            lemma_read_consumes(buf@.skip(p1 as int));
        }
        let (object, p3) = match read_term_at(buf, p2) {
            Ok(x) => x,
            Err(e) => return Err(e),
        };
        return Ok((EncodedTerm::Triple(Box::new(EncodedTriple { subject, predicate, object })), p3));
    }
    read_flat_term_at(buf, id, p)
}

/// Reads the term of type byte `id` (not a triple) whose payload starts at `p`.
#[verifier::rlimit(40)]
fn read_flat_term_at(buf: &[u8], id: u8, p: usize) -> (r: Result<(EncodedTerm, usize), StorageError>)
    requires
        p <= buf@.len(),
    ensures
        read_result_matches(read_flat_term(id, buf@.skip(p as int)), r, buf@),
{
    let len = buf.len();
    proof {
        reveal(read_flat_term);
        assert forall|a: int, b: int| 0 <= a <= b <= buf@.len() - p implies #[trigger] buf@.skip(
            p as int,
        ).subrange(a, b) == buf@.subrange(p + a, p + b) by {
            assert(buf@.skip(p as int).subrange(a, b) =~= buf@.subrange(p + a, p + b));
        }
        assert forall|a: int| 0 <= a <= buf@.len() - p implies #[trigger] buf@.skip(p as int).skip(
            a,
        ) == buf@.skip(p + a) by {
            assert(buf@.skip(p as int).skip(a) =~= buf@.skip(p + a));
        }
    }
    if id == TYPE_NAMED_NODE_ID {
        if len - p < 16 {
            return Err(StorageError::UnexpectedEof);
        }
        return Ok((EncodedTerm::NamedNode { iri_id: read_hash(buf, p) }, p + 16));
    }
    if id == TYPE_NUMERICAL_BLANK_NODE_ID {
        if len - p < 16 {
            return Err(StorageError::UnexpectedEof);
        }
        let id_bytes = read_array::<16>(buf, p);
        return Ok((EncodedTerm::NumericalBlankNode { id: u128_from_be_bytes(id_bytes) }, p + 16));
    }
    if id == TYPE_SMALL_BLANK_NODE_ID {
        if len - p < 16 {
            return Err(StorageError::UnexpectedEof);
        }
        let value = match read_small(buf, p) {
            Ok(v) => v,
            Err(e) => return Err(e),
        };
        return Ok((EncodedTerm::SmallBlankNode(value), p + 16));
    }
    if id == TYPE_BIG_BLANK_NODE_ID {
        if len - p < 16 {
            return Err(StorageError::UnexpectedEof);
        }
        return Ok((EncodedTerm::BigBlankNode { id_id: read_hash(buf, p) }, p + 16));
    }
    if id == TYPE_SMALL_SMALL_LANG_STRING_LITERAL {
        if len - p < 32 {
            return Err(StorageError::UnexpectedEof);
        }
        let value = match read_small(buf, p + 16) {
            Ok(v) => v,
            Err(e) => return Err(e),
        };
        let language = match read_small(buf, p) {
            Ok(v) => v,
            Err(e) => return Err(e),
        };
        return Ok((EncodedTerm::SmallSmallLangStringLiteral { value, language }, p + 32));
    }
    if id == TYPE_SMALL_BIG_LANG_STRING_LITERAL {
        if len - p < 32 {
            return Err(StorageError::UnexpectedEof);
        }
        let value = match read_small(buf, p + 16) {
            Ok(v) => v,
            Err(e) => return Err(e),
        };
        let language_id = read_hash(buf, p);
        return Ok((EncodedTerm::SmallBigLangStringLiteral { value, language_id }, p + 32));
    }
    if id == TYPE_BIG_SMALL_LANG_STRING_LITERAL {
        if len - p < 32 {
            return Err(StorageError::UnexpectedEof);
        }
        let value_id = read_hash(buf, p + 16);
        let language = match read_small(buf, p) {
            Ok(v) => v,
            Err(e) => return Err(e),
        };
        return Ok((EncodedTerm::BigSmallLangStringLiteral { value_id, language }, p + 32));
    }
    if id == TYPE_BIG_BIG_LANG_STRING_LITERAL {
        if len - p < 32 {
            return Err(StorageError::UnexpectedEof);
        }
        let value_id = read_hash(buf, p + 16);
        let language_id = read_hash(buf, p);
        return Ok((EncodedTerm::BigBigLangStringLiteral { value_id, language_id }, p + 32));
    }
    if id == TYPE_SMALL_TYPED_LITERAL {
        if len - p < 32 {
            return Err(StorageError::UnexpectedEof);
        }
        let datatype_id = read_hash(buf, p);
        let value = match read_small(buf, p + 16) {
            Ok(v) => v,
            Err(e) => return Err(e),
        };
        return Ok((EncodedTerm::SmallTypedLiteral { value, datatype_id }, p + 32));
    }
    if id == TYPE_BIG_TYPED_LITERAL {
        if len - p < 32 {
            return Err(StorageError::UnexpectedEof);
        }
        let datatype_id = read_hash(buf, p);
        let value_id = read_hash(buf, p + 16);
        return Ok((EncodedTerm::BigTypedLiteral { value_id, datatype_id }, p + 32));
    }
    if id == TYPE_SMALL_STRING_LITERAL {
        if len - p < 16 {
            return Err(StorageError::UnexpectedEof);
        }
        let value = match read_small(buf, p) {
            Ok(v) => v,
            Err(e) => return Err(e),
        };
        return Ok((EncodedTerm::SmallStringLiteral(value), p + 16));
    }
    if id == TYPE_BIG_STRING_LITERAL {
        if len - p < 16 {
            return Err(StorageError::UnexpectedEof);
        }
        return Ok((EncodedTerm::BigStringLiteral { value_id: read_hash(buf, p) }, p + 16));
    }
    if id == TYPE_BOOLEAN_LITERAL_TRUE {
        return Ok((EncodedTerm::BooleanLiteral(true), p));
    }
    if id == TYPE_BOOLEAN_LITERAL_FALSE {
        return Ok((EncodedTerm::BooleanLiteral(false), p));
    }
    if id == TYPE_INTEGER_LITERAL {
        if len - p < 8 {
            return Err(StorageError::UnexpectedEof);
        }
        let v = read_array::<8>(buf, p);
        return Ok((EncodedTerm::IntegerLiteral(i64_from_be_bytes(v)), p + 8));
    }
    if id == TYPE_FLOAT_LITERAL {
        return match read_array_term::<4>(buf, p) {
            Some(a) => Ok((EncodedTerm::FloatLiteral(a), p + 4)),
            None => Err(StorageError::UnexpectedEof),
        };
    }
    if id == TYPE_DOUBLE_LITERAL {
        return match read_array_term::<8>(buf, p) {
            Some(a) => Ok((EncodedTerm::DoubleLiteral(a), p + 8)),
            None => Err(StorageError::UnexpectedEof),
        };
    }
    if id == TYPE_DECIMAL_LITERAL {
        return match read_array_term::<16>(buf, p) {
            Some(a) => Ok((EncodedTerm::DecimalLiteral(a), p + 16)),
            None => Err(StorageError::UnexpectedEof),
        };
    }
    if id == TYPE_DATE_TIME_LITERAL {
        return match read_array_term::<18>(buf, p) {
            Some(a) => Ok((EncodedTerm::DateTimeLiteral(a), p + 18)),
            None => Err(StorageError::UnexpectedEof),
        };
    }
    if id == TYPE_TIME_LITERAL {
        return match read_array_term::<18>(buf, p) {
            Some(a) => Ok((EncodedTerm::TimeLiteral(a), p + 18)),
            None => Err(StorageError::UnexpectedEof),
        };
    }
    if id == TYPE_DATE_LITERAL {
        return match read_array_term::<18>(buf, p) {
            Some(a) => Ok((EncodedTerm::DateLiteral(a), p + 18)),
            None => Err(StorageError::UnexpectedEof),
        };
    }
    if id == TYPE_G_YEAR_MONTH_LITERAL {
        return match read_array_term::<18>(buf, p) {
            Some(a) => Ok((EncodedTerm::GYearMonthLiteral(a), p + 18)),
            None => Err(StorageError::UnexpectedEof),
        };
    }
    if id == TYPE_G_YEAR_LITERAL {
        return match read_array_term::<18>(buf, p) {
            Some(a) => Ok((EncodedTerm::GYearLiteral(a), p + 18)),
            None => Err(StorageError::UnexpectedEof),
        };
    }
    if id == TYPE_G_MONTH_DAY_LITERAL {
        return match read_array_term::<18>(buf, p) {
            Some(a) => Ok((EncodedTerm::GMonthDayLiteral(a), p + 18)),
            None => Err(StorageError::UnexpectedEof),
        };
    }
    if id == TYPE_G_DAY_LITERAL {
        return match read_array_term::<18>(buf, p) {
            Some(a) => Ok((EncodedTerm::GDayLiteral(a), p + 18)),
            None => Err(StorageError::UnexpectedEof),
        };
    }
    if id == TYPE_G_MONTH_LITERAL {
        return match read_array_term::<18>(buf, p) {
            Some(a) => Ok((EncodedTerm::GMonthLiteral(a), p + 18)),
            None => Err(StorageError::UnexpectedEof),
        };
    }
    if id == TYPE_DURATION_LITERAL {
        return match read_array_term::<24>(buf, p) {
            Some(a) => Ok((EncodedTerm::DurationLiteral(a), p + 24)),
            None => Err(StorageError::UnexpectedEof),
        };
    }
    if id == TYPE_YEAR_MONTH_DURATION_LITERAL {
        return match read_array_term::<8>(buf, p) {
            Some(a) => Ok((EncodedTerm::YearMonthDurationLiteral(a), p + 8)),
            None => Err(StorageError::UnexpectedEof),
        };
    }
    if id == TYPE_DAY_TIME_DURATION_LITERAL {
        return match read_array_term::<16>(buf, p) {
            Some(a) => Ok((EncodedTerm::DayTimeDurationLiteral(a), p + 16)),
            None => Err(StorageError::UnexpectedEof),
        };
    }
    Err(StorageError::Corruption(CorruptionError::InvalidTypeId))
}

proof fn lemma_one_part(id: u8, a: Seq<u8>, rest: Seq<u8>)
    ensures
        (seq![id] + a + rest)[0] == id,
        (seq![id] + a + rest).len() > 0,
        (seq![id] + a + rest).drop_first() == a + rest,
        (a + rest).take(a.len() as int) == a,
        (a + rest).skip(a.len() as int) == rest,
{
    assert((seq![id] + a + rest).drop_first() =~= a + rest);
    assert((a + rest).take(a.len() as int) =~= a);
    assert((a + rest).skip(a.len() as int) =~= rest);
}

proof fn lemma_two_parts(id: u8, a: Seq<u8>, b: Seq<u8>, rest: Seq<u8>)
    requires
        a.len() == 16,
        b.len() == 16,
    ensures
        (seq![id] + a + b + rest)[0] == id,
        (seq![id] + a + b + rest).len() > 0,
        (seq![id] + a + b + rest).drop_first() == a + b + rest,
        (a + b + rest).take(16) == a,
        (a + b + rest).subrange(16, 32) == b,
        (a + b + rest).skip(32) == rest,
        (a + b + rest).len() >= 32,
{
    assert((seq![id] + a + b + rest).drop_first() =~= a + b + rest);
    assert((a + b + rest).take(16) =~= a);
    assert((a + b + rest).subrange(16, 32) =~= b);
    assert((a + b + rest).skip(32) =~= rest);
}

/// The serialization of a term other than the default graph marker is not empty.
pub proof fn lemma_term_bytes_not_empty(t: EncodedTerm)
    requires
        !(t is DefaultGraph),
    ensures
        term_bytes(t).len() > 0,
{
}

proof fn lemma_small_roundtrip(x: SmallString)
    requires
        x.wf(),
    ensures
        small_ok(x.bytes()),
        SmallString::from_bytes_spec(x.bytes()) == x,
        x.bytes().len() == 16,
{
    x.lemma_bytes_len();
    SmallString::lemma_from_bytes_spec(x.bytes());
    x.lemma_bytes_injective(SmallString::from_bytes_spec(x.bytes()));
}

proof fn lemma_hash_roundtrip(h: StrHash)
    ensures
        StrHash::from_bytes_spec(h.bytes()) == h,
        h.bytes().len() == 16,
{
    h.lemma_bytes_roundtrip(h.bytes());
}

proof fn lemma_array_roundtrip<const N: usize>(a: [u8; N])
    ensures
        array_from_seq::<N>(a@) == a,
        a@.len() == N,
{
    vstd::array::array_len_matches_n(&a);
    crate::endian::lemma_array_from_seq::<N>(a@);
    crate::endian::lemma_array_view_injective(array_from_seq::<N>(a@), a);
}

#[verifier::rlimit(40)]
proof fn lemma_roundtrip_nodes_and_strings(t: EncodedTerm, rest: Seq<u8>)
    requires
        term_wf(t),
        t is NamedNode || t is NumericalBlankNode || t is SmallBlankNode || t is BigBlankNode || t is SmallStringLiteral || t is BigStringLiteral,
    ensures
        read_term_spec(term_bytes(t) + rest) == TermRead::Read(t, rest),
{
    reveal(read_flat_term);
    match t {
        EncodedTerm::NamedNode { iri_id } => {
            lemma_hash_roundtrip(iri_id);
            lemma_one_part(TYPE_NAMED_NODE_ID, iri_id.bytes(), rest);
        },
        EncodedTerm::NumericalBlankNode { id } => {
            crate::endian::lemma_u128_value_roundtrip(id);
            lemma_one_part(TYPE_NUMERICAL_BLANK_NODE_ID, u128_to_be(id), rest);
        },
        EncodedTerm::SmallBlankNode(x) => {
            lemma_small_roundtrip(x);
            lemma_one_part(TYPE_SMALL_BLANK_NODE_ID, x.bytes(), rest);
        },
        EncodedTerm::BigBlankNode { id_id } => {
            lemma_hash_roundtrip(id_id);
            lemma_one_part(TYPE_BIG_BLANK_NODE_ID, id_id.bytes(), rest);
        },
        EncodedTerm::SmallStringLiteral(x) => {
            lemma_small_roundtrip(x);
            lemma_one_part(TYPE_SMALL_STRING_LITERAL, x.bytes(), rest);
        },
        EncodedTerm::BigStringLiteral { value_id } => {
            lemma_hash_roundtrip(value_id);
            lemma_one_part(TYPE_BIG_STRING_LITERAL, value_id.bytes(), rest);
        },
        _ => {},
    }
}

#[verifier::rlimit(40)]
proof fn lemma_roundtrip_tagged_and_typed(t: EncodedTerm, rest: Seq<u8>)
    requires
        term_wf(t),
        t is SmallSmallLangStringLiteral || t is SmallBigLangStringLiteral || t is BigSmallLangStringLiteral || t is BigBigLangStringLiteral || t is SmallTypedLiteral || t is BigTypedLiteral || t is BooleanLiteral,
    ensures
        read_term_spec(term_bytes(t) + rest) == TermRead::Read(t, rest),
{
    reveal(read_flat_term);
    match t {
        EncodedTerm::SmallSmallLangStringLiteral { value, language } => {
            lemma_small_roundtrip(value);
            lemma_small_roundtrip(language);
            lemma_two_parts(
                TYPE_SMALL_SMALL_LANG_STRING_LITERAL,
                language.bytes(),
                value.bytes(),
                rest,
            );
        },
        EncodedTerm::SmallBigLangStringLiteral { value, language_id } => {
            lemma_small_roundtrip(value);
            lemma_hash_roundtrip(language_id);
            lemma_two_parts(
                TYPE_SMALL_BIG_LANG_STRING_LITERAL,
                language_id.bytes(),
                value.bytes(),
                rest,
            );
        },
        EncodedTerm::BigSmallLangStringLiteral { value_id, language } => {
            lemma_hash_roundtrip(value_id);
            lemma_small_roundtrip(language);
            lemma_two_parts(
                TYPE_BIG_SMALL_LANG_STRING_LITERAL,
                language.bytes(),
                value_id.bytes(),
                rest,
            );
        },
        EncodedTerm::BigBigLangStringLiteral { value_id, language_id } => {
            lemma_hash_roundtrip(value_id);
            lemma_hash_roundtrip(language_id);
            lemma_two_parts(
                TYPE_BIG_BIG_LANG_STRING_LITERAL,
                language_id.bytes(),
                value_id.bytes(),
                rest,
            );
        },
        EncodedTerm::SmallTypedLiteral { value, datatype_id } => {
            lemma_small_roundtrip(value);
            lemma_hash_roundtrip(datatype_id);
            lemma_two_parts(TYPE_SMALL_TYPED_LITERAL, datatype_id.bytes(), value.bytes(), rest);
        },
        EncodedTerm::BigTypedLiteral { value_id, datatype_id } => {
            lemma_hash_roundtrip(value_id);
            lemma_hash_roundtrip(datatype_id);
            lemma_two_parts(TYPE_BIG_TYPED_LITERAL, datatype_id.bytes(), value_id.bytes(), rest);
        },
        EncodedTerm::BooleanLiteral(v) => {
            if v {
                lemma_one_part(TYPE_BOOLEAN_LITERAL_TRUE, Seq::empty(), rest);
                assert(term_bytes(t) + rest =~= seq![TYPE_BOOLEAN_LITERAL_TRUE] + Seq::empty() + rest);
            } else {
                lemma_one_part(TYPE_BOOLEAN_LITERAL_FALSE, Seq::empty(), rest);
                assert(term_bytes(t) + rest =~= seq![TYPE_BOOLEAN_LITERAL_FALSE] + Seq::empty() + rest);
            }
        },
        _ => {},
    }
}

#[verifier::rlimit(40)]
proof fn lemma_roundtrip_values(t: EncodedTerm, rest: Seq<u8>)
    requires
        term_wf(t),
        t is FloatLiteral || t is DoubleLiteral || t is IntegerLiteral || t is DecimalLiteral || t is DateTimeLiteral || t is TimeLiteral || t is DateLiteral || t is GYearMonthLiteral || t is GYearLiteral || t is GMonthDayLiteral || t is GDayLiteral || t is GMonthLiteral || t is DurationLiteral || t is YearMonthDurationLiteral || t is DayTimeDurationLiteral,
    ensures
        read_term_spec(term_bytes(t) + rest) == TermRead::Read(t, rest),
{
    reveal(read_flat_term);
    match t {
        EncodedTerm::FloatLiteral(v) => {
            lemma_array_roundtrip(v);
            lemma_one_part(TYPE_FLOAT_LITERAL, v@, rest);
        },
        EncodedTerm::DoubleLiteral(v) => {
            lemma_array_roundtrip(v);
            lemma_one_part(TYPE_DOUBLE_LITERAL, v@, rest);
        },
        EncodedTerm::IntegerLiteral(v) => {
            crate::endian::lemma_i64_value_roundtrip(v);
            lemma_one_part(TYPE_INTEGER_LITERAL, i64_to_be(v), rest);
        },
        EncodedTerm::DecimalLiteral(v) => {
            lemma_array_roundtrip(v);
            lemma_one_part(TYPE_DECIMAL_LITERAL, v@, rest);
        },
        EncodedTerm::DateTimeLiteral(v) => {
            lemma_array_roundtrip(v);
            lemma_one_part(TYPE_DATE_TIME_LITERAL, v@, rest);
        },
        EncodedTerm::TimeLiteral(v) => {
            lemma_array_roundtrip(v);
            lemma_one_part(TYPE_TIME_LITERAL, v@, rest);
        },
        EncodedTerm::DateLiteral(v) => {
            lemma_array_roundtrip(v);
            lemma_one_part(TYPE_DATE_LITERAL, v@, rest);
        },
        EncodedTerm::GYearMonthLiteral(v) => {
            lemma_array_roundtrip(v);
            lemma_one_part(TYPE_G_YEAR_MONTH_LITERAL, v@, rest);
        },
        EncodedTerm::GYearLiteral(v) => {
            lemma_array_roundtrip(v);
            lemma_one_part(TYPE_G_YEAR_LITERAL, v@, rest);
        },
        EncodedTerm::GMonthDayLiteral(v) => {
            lemma_array_roundtrip(v);
            lemma_one_part(TYPE_G_MONTH_DAY_LITERAL, v@, rest);
        },
        EncodedTerm::GDayLiteral(v) => {
            lemma_array_roundtrip(v);
            lemma_one_part(TYPE_G_DAY_LITERAL, v@, rest);
        },
        EncodedTerm::GMonthLiteral(v) => {
            lemma_array_roundtrip(v);
            lemma_one_part(TYPE_G_MONTH_LITERAL, v@, rest);
        },
        EncodedTerm::DurationLiteral(v) => {
            lemma_array_roundtrip(v);
            lemma_one_part(TYPE_DURATION_LITERAL, v@, rest);
        },
        EncodedTerm::YearMonthDurationLiteral(v) => {
            lemma_array_roundtrip(v);
            lemma_one_part(TYPE_YEAR_MONTH_DURATION_LITERAL, v@, rest);
        },
        EncodedTerm::DayTimeDurationLiteral(v) => {
            lemma_array_roundtrip(v);
            lemma_one_part(TYPE_DAY_TIME_DURATION_LITERAL, v@, rest);
        },
        _ => {},
    }
}

/// Reading the serialization of a term, followed by any bytes, gives back
/// the term and leaves exactly the bytes that follow it.
pub proof fn lemma_term_roundtrip(t: EncodedTerm, rest: Seq<u8>)
    requires
        term_wf(t),
        !(t is DefaultGraph),
    ensures
        read_term_spec(term_bytes(t) + rest) == TermRead::Read(t, rest),
    decreases t,
{
    let s = term_bytes(t) + rest;
    match t {
        EncodedTerm::Triple(tr) => {
            let a = term_bytes(tr.subject);
            let b = term_bytes(tr.predicate);
            let c = term_bytes(tr.object);
            lemma_term_bytes_not_empty(tr.subject);
            lemma_term_bytes_not_empty(tr.predicate);
            lemma_term_bytes_not_empty(tr.object);
            assert(s =~= seq![TYPE_TRIPLE] + (a + (b + (c + rest))));
            assert(s.drop_first() =~= a + (b + (c + rest)));
            lemma_term_roundtrip(tr.subject, b + (c + rest));
            lemma_term_roundtrip(tr.predicate, c + rest);
            lemma_term_roundtrip(tr.object, rest);
            assert(EncodedTerm::Triple(
                Box::new(EncodedTriple { subject: tr.subject, predicate: tr.predicate, object: tr.object }),
            ) == t);
        },
        _ => {
            if t is NamedNode || t is NumericalBlankNode || t is SmallBlankNode || t is BigBlankNode || t is SmallStringLiteral || t is BigStringLiteral {
                lemma_roundtrip_nodes_and_strings(t, rest);
            } else if t is SmallSmallLangStringLiteral || t is SmallBigLangStringLiteral || t is BigSmallLangStringLiteral || t is BigBigLangStringLiteral || t is SmallTypedLiteral || t is BigTypedLiteral || t is BooleanLiteral {
                lemma_roundtrip_tagged_and_typed(t, rest);
            } else {
                lemma_roundtrip_values(t, rest);
            }
        },
    }
}


/// The orders in which the quad indexes write the terms of a quad. The
/// `D` orders are those of the default graph, whose graph name is not written.
#[derive(Clone, Copy, Debug, PartialEq, Eq, Structural)]
pub enum QuadEncoding {
    Spog,
    Posg,
    Ospg,
    Gspo,
    Gpos,
    Gosp,
    Dspo,
    Dpos,
    Dosp,
}

/// Whether the encoding is one of the default graph, which writes three terms.
pub open spec fn is_default_graph_encoding(e: QuadEncoding) -> bool {
    e is Dspo || e is Dpos || e is Dosp
}

/// The terms of a quad in the order the encoding writes them.
pub open spec fn quad_terms(e: QuadEncoding, q: EncodedQuad) -> Seq<EncodedTerm> {
    match e {
        QuadEncoding::Spog => seq![q.subject, q.predicate, q.object, q.graph_name],
        QuadEncoding::Posg => seq![q.predicate, q.object, q.subject, q.graph_name],
        QuadEncoding::Ospg => seq![q.object, q.subject, q.predicate, q.graph_name],
        QuadEncoding::Gspo => seq![q.graph_name, q.subject, q.predicate, q.object],
        QuadEncoding::Gpos => seq![q.graph_name, q.predicate, q.object, q.subject],
        QuadEncoding::Gosp => seq![q.graph_name, q.object, q.subject, q.predicate],
        QuadEncoding::Dspo => seq![q.subject, q.predicate, q.object],
        QuadEncoding::Dpos => seq![q.predicate, q.object, q.subject],
        QuadEncoding::Dosp => seq![q.object, q.subject, q.predicate],
    }
}

/// The quad whose terms, in the order of the encoding, are `ts`.
pub open spec fn quad_from_terms(e: QuadEncoding, ts: Seq<EncodedTerm>) -> EncodedQuad {
    match e {
        QuadEncoding::Spog => EncodedQuad {
            subject: ts[0],
            predicate: ts[1],
            object: ts[2],
            graph_name: ts[3],
        },
        QuadEncoding::Posg => EncodedQuad {
            predicate: ts[0],
            object: ts[1],
            subject: ts[2],
            graph_name: ts[3],
        },
        QuadEncoding::Ospg => EncodedQuad {
            object: ts[0],
            subject: ts[1],
            predicate: ts[2],
            graph_name: ts[3],
        },
        QuadEncoding::Gspo => EncodedQuad {
            graph_name: ts[0],
            subject: ts[1],
            predicate: ts[2],
            object: ts[3],
        },
        QuadEncoding::Gpos => EncodedQuad {
            graph_name: ts[0],
            predicate: ts[1],
            object: ts[2],
            subject: ts[3],
        },
        QuadEncoding::Gosp => EncodedQuad {
            graph_name: ts[0],
            object: ts[1],
            subject: ts[2],
            predicate: ts[3],
        },
        QuadEncoding::Dspo => EncodedQuad {
            subject: ts[0],
            predicate: ts[1],
            object: ts[2],
            graph_name: EncodedTerm::DefaultGraph,
        },
        QuadEncoding::Dpos => EncodedQuad {
            predicate: ts[0],
            object: ts[1],
            subject: ts[2],
            graph_name: EncodedTerm::DefaultGraph,
        },
        QuadEncoding::Dosp => EncodedQuad {
            object: ts[0],
            subject: ts[1],
            predicate: ts[2],
            graph_name: EncodedTerm::DefaultGraph,
        },
    }
}

/// The serializations of a sequence of terms, one after the other.
pub open spec fn terms_bytes(ts: Seq<EncodedTerm>) -> Seq<u8>
    decreases ts.len(),
{
    if ts.len() == 0 {
        Seq::empty()
    } else {
        term_bytes(ts[0]) + terms_bytes(ts.drop_first())
    }
}

/// The serialization of a quad in the order of the encoding.
pub open spec fn quad_bytes(e: QuadEncoding, q: EncodedQuad) -> Seq<u8> {
    terms_bytes(quad_terms(e, q))
}

/// The outcome of reading several terms one after the other.
pub enum TermsRead {
    /// The terms read, and the bytes that follow them.
    Read(Seq<EncodedTerm>, Seq<u8>),
    /// The first failed read.
    Failed(TermRead),
}

/// Reads `n` terms one after the other from the start of `s`.
pub open spec fn read_terms_spec(s: Seq<u8>, n: nat) -> TermsRead
    decreases n,
{
    if n == 0 {
        TermsRead::Read(Seq::empty(), s)
    } else {
        match read_term_spec(s) {
            TermRead::Read(t, r) => match read_terms_spec(r, (n - 1) as nat) {
                TermsRead::Read(ts, r2) => TermsRead::Read(seq![t] + ts, r2),
                f => f,
            },
            e => TermsRead::Failed(e),
        }
    }
}

/// The number of terms an encoding writes.
pub open spec fn encoding_arity(e: QuadEncoding) -> nat {
    if is_default_graph_encoding(e) {
        3
    } else {
        4
    }
}

/// The outcome of decoding a quad from the start of `s` with the encoding.
pub open spec fn decode_quad_spec(e: QuadEncoding, s: Seq<u8>) -> TermsRead {
    read_terms_spec(s, encoding_arity(e))
}

/// Whether `r` is what decoding a quad gives when the spec reads `p`.
pub open spec fn decode_result_matches(
    e: QuadEncoding,
    p: TermsRead,
    r: Result<EncodedQuad, StorageError>,
) -> bool {
    match p {
        TermsRead::Read(ts, _) => r == Ok::<EncodedQuad, StorageError>(quad_from_terms(e, ts)),
        TermsRead::Failed(f) => match f {
            TermRead::Eof => r matches Err(StorageError::UnexpectedEof),
            TermRead::InvalidTypeId => r matches Err(
                StorageError::Corruption(CorruptionError::InvalidTypeId),
            ),
            TermRead::InvalidSmallString => r matches Err(
                StorageError::Corruption(CorruptionError::InvalidSmallString(_)),
            ),
            _ => false,
        },
    }
}

fn read_term_step(buf: &[u8], pos: usize, Ghost(n): Ghost<nat>) -> (r: Result<(EncodedTerm, usize), StorageError>)
    requires
        pos <= buf@.len(),
        n > 0,
    ensures
        read_result_matches(read_term_spec(buf@.skip(pos as int)), r, buf@),
        r matches Ok((t, q)) ==> pos < q <= buf@.len() && read_terms_spec(buf@.skip(pos as int), n)
            == (match read_terms_spec(buf@.skip(q as int), (n - 1) as nat) {
            TermsRead::Read(ts, r2) => TermsRead::Read(seq![t] + ts, r2),
            f => f,
        }),
        r is Err ==> read_terms_spec(buf@.skip(pos as int), n) == TermsRead::Failed(
            read_term_spec(buf@.skip(pos as int)),
        ),
{
    let r = read_term_at(buf, pos);
    proof {
        lemma_read_consumes(buf@.skip(pos as int));
    }
    r
}

impl QuadEncoding {
    /// Decodes a quad serialized with this encoding at the start of `buffer`.
    pub fn decode(self, buffer: &[u8]) -> (r: Result<EncodedQuad, StorageError>)
        ensures
            decode_result_matches(self, decode_quad_spec(self, buffer@), r),
    {
        proof {
            assert(buffer@.skip(0) =~= buffer@);
            reveal_with_fuel(read_terms_spec, 5);
        }
        let ghost n = encoding_arity(self);
        let (t0, p0) = match read_term_step(buffer, 0, Ghost(n)) {
            Ok(x) => x,
            Err(e) => return Err(e),
        };
        let (t1, p1) = match read_term_step(buffer, p0, Ghost((n - 1) as nat)) {
            Ok(x) => x,
            Err(e) => return Err(e),
        };
        let (t2, p2) = match read_term_step(buffer, p1, Ghost((n - 2) as nat)) {
            Ok(x) => x,
            Err(e) => return Err(e),
        };
        match self {
            QuadEncoding::Dspo => {
                return Ok(EncodedQuad {
                    subject: t0,
                    predicate: t1,
                    object: t2,
                    graph_name: EncodedTerm::DefaultGraph,
                });
            },
            QuadEncoding::Dpos => {
                return Ok(EncodedQuad {
                    predicate: t0,
                    object: t1,
                    subject: t2,
                    graph_name: EncodedTerm::DefaultGraph,
                });
            },
            QuadEncoding::Dosp => {
                return Ok(EncodedQuad {
                    object: t0,
                    subject: t1,
                    predicate: t2,
                    graph_name: EncodedTerm::DefaultGraph,
                });
            },
            _ => {},
        }
        let (t3, _p3) = match read_term_step(buffer, p2, Ghost((n - 3) as nat)) {
            Ok(x) => x,
            Err(e) => return Err(e),
        };
        match self {
            QuadEncoding::Spog => Ok(
                EncodedQuad { subject: t0, predicate: t1, object: t2, graph_name: t3 },
            ),
            QuadEncoding::Posg => Ok(
                EncodedQuad { predicate: t0, object: t1, subject: t2, graph_name: t3 },
            ),
            QuadEncoding::Ospg => Ok(
                EncodedQuad { object: t0, subject: t1, predicate: t2, graph_name: t3 },
            ),
            QuadEncoding::Gspo => Ok(
                EncodedQuad { graph_name: t0, subject: t1, predicate: t2, object: t3 },
            ),
            QuadEncoding::Gpos => Ok(
                EncodedQuad { graph_name: t0, predicate: t1, object: t2, subject: t3 },
            ),
            _ => Ok(EncodedQuad { graph_name: t0, object: t1, subject: t2, predicate: t3 }),
        }
    }
}

/// Decodes the term serialized at the start of `buffer`.
pub fn decode_term(buffer: &[u8]) -> (r: Result<EncodedTerm, StorageError>)
    ensures
        match read_term_spec(buffer@) {
            TermRead::Read(t, _) => r == Ok::<EncodedTerm, StorageError>(t),
            TermRead::Eof => r matches Err(StorageError::UnexpectedEof),
            TermRead::InvalidTypeId => r matches Err(
                StorageError::Corruption(CorruptionError::InvalidTypeId),
            ),
            TermRead::InvalidSmallString => r matches Err(
                StorageError::Corruption(CorruptionError::InvalidSmallString(_)),
            ),
        },
{
    proof {
        assert(buffer@.skip(0) =~= buffer@);
    }
    match read_term_at(buffer, 0) {
        Ok((t, _)) => Ok(t),
        Err(e) => Err(e),
    }
}

/// Appends the terms of the quad in the `spog` order.
pub fn write_spog_quad(sink: &mut Vec<u8>, quad: &EncodedQuad)
    ensures
        final(sink)@ == old(sink)@ + quad_bytes(QuadEncoding::Spog, *quad),
{
    let ghost start = sink@;
    write_term(sink, &quad.subject);
    write_term(sink, &quad.predicate);
    write_term(sink, &quad.object);
    write_term(sink, &quad.graph_name);
    proof {
        reveal_with_fuel(terms_bytes, 5);
        assert(sink@ =~= start + quad_bytes(QuadEncoding::Spog, *quad));
    }
}

/// Appends the terms of the quad in the `posg` order.
pub fn write_posg_quad(sink: &mut Vec<u8>, quad: &EncodedQuad)
    ensures
        final(sink)@ == old(sink)@ + quad_bytes(QuadEncoding::Posg, *quad),
{
    let ghost start = sink@;
    write_term(sink, &quad.predicate);
    write_term(sink, &quad.object);
    write_term(sink, &quad.subject);
    write_term(sink, &quad.graph_name);
    proof {
        reveal_with_fuel(terms_bytes, 5);
        assert(sink@ =~= start + quad_bytes(QuadEncoding::Posg, *quad));
    }
}

/// Appends the terms of the quad in the `ospg` order.
pub fn write_ospg_quad(sink: &mut Vec<u8>, quad: &EncodedQuad)
    ensures
        final(sink)@ == old(sink)@ + quad_bytes(QuadEncoding::Ospg, *quad),
{
    let ghost start = sink@;
    write_term(sink, &quad.object);
    write_term(sink, &quad.subject);
    write_term(sink, &quad.predicate);
    write_term(sink, &quad.graph_name);
    proof {
        reveal_with_fuel(terms_bytes, 5);
        assert(sink@ =~= start + quad_bytes(QuadEncoding::Ospg, *quad));
    }
}

/// Appends the terms of the quad in the `gspo` order.
pub fn write_gspo_quad(sink: &mut Vec<u8>, quad: &EncodedQuad)
    ensures
        final(sink)@ == old(sink)@ + quad_bytes(QuadEncoding::Gspo, *quad),
{
    let ghost start = sink@;
    write_term(sink, &quad.graph_name);
    write_term(sink, &quad.subject);
    write_term(sink, &quad.predicate);
    write_term(sink, &quad.object);
    proof {
        reveal_with_fuel(terms_bytes, 5);
        assert(sink@ =~= start + quad_bytes(QuadEncoding::Gspo, *quad));
    }
}

/// Appends the terms of the quad in the `gpos` order.
pub fn write_gpos_quad(sink: &mut Vec<u8>, quad: &EncodedQuad)
    ensures
        final(sink)@ == old(sink)@ + quad_bytes(QuadEncoding::Gpos, *quad),
{
    let ghost start = sink@;
    write_term(sink, &quad.graph_name);
    write_term(sink, &quad.predicate);
    write_term(sink, &quad.object);
    write_term(sink, &quad.subject);
    proof {
        reveal_with_fuel(terms_bytes, 5);
        assert(sink@ =~= start + quad_bytes(QuadEncoding::Gpos, *quad));
    }
}

/// Appends the terms of the quad in the `gosp` order.
pub fn write_gosp_quad(sink: &mut Vec<u8>, quad: &EncodedQuad)
    ensures
        final(sink)@ == old(sink)@ + quad_bytes(QuadEncoding::Gosp, *quad),
{
    let ghost start = sink@;
    write_term(sink, &quad.graph_name);
    write_term(sink, &quad.object);
    write_term(sink, &quad.subject);
    write_term(sink, &quad.predicate);
    proof {
        reveal_with_fuel(terms_bytes, 5);
        assert(sink@ =~= start + quad_bytes(QuadEncoding::Gosp, *quad));
    }
}

/// Appends the terms of the quad in the `spo` order.
pub fn write_spo_quad(sink: &mut Vec<u8>, quad: &EncodedQuad)
    ensures
        final(sink)@ == old(sink)@ + quad_bytes(QuadEncoding::Dspo, *quad),
{
    let ghost start = sink@;
    write_term(sink, &quad.subject);
    write_term(sink, &quad.predicate);
    write_term(sink, &quad.object);
    proof {
        reveal_with_fuel(terms_bytes, 5);
        assert(sink@ =~= start + quad_bytes(QuadEncoding::Dspo, *quad));
    }
}

/// Appends the terms of the quad in the `pos` order.
pub fn write_pos_quad(sink: &mut Vec<u8>, quad: &EncodedQuad)
    ensures
        final(sink)@ == old(sink)@ + quad_bytes(QuadEncoding::Dpos, *quad),
{
    let ghost start = sink@;
    write_term(sink, &quad.predicate);
    write_term(sink, &quad.object);
    write_term(sink, &quad.subject);
    proof {
        reveal_with_fuel(terms_bytes, 5);
        assert(sink@ =~= start + quad_bytes(QuadEncoding::Dpos, *quad));
    }
}

/// Appends the terms of the quad in the `osp` order.
pub fn write_osp_quad(sink: &mut Vec<u8>, quad: &EncodedQuad)
    ensures
        final(sink)@ == old(sink)@ + quad_bytes(QuadEncoding::Dosp, *quad),
{
    let ghost start = sink@;
    write_term(sink, &quad.object);
    write_term(sink, &quad.subject);
    write_term(sink, &quad.predicate);
    proof {
        reveal_with_fuel(terms_bytes, 5);
        assert(sink@ =~= start + quad_bytes(QuadEncoding::Dosp, *quad));
    }
}

/// The serialization of a term.
pub fn encode_term(t: &EncodedTerm) -> (r: Vec<u8>)
    ensures
        r@ == term_bytes(*t),
{
    let mut vec = Vec::with_capacity(WRITTEN_TERM_MAX_SIZE);
    write_term(&mut vec, t);
    vec
}

/// The serializations of two terms, one after the other.
pub fn encode_term_pair(t1: &EncodedTerm, t2: &EncodedTerm) -> (r: Vec<u8>)
    ensures
        r@ == term_bytes(*t1) + term_bytes(*t2),
{
    let mut vec = Vec::with_capacity(2 * WRITTEN_TERM_MAX_SIZE);
    write_term(&mut vec, t1);
    write_term(&mut vec, t2);
    vec
}

/// The serializations of three terms, one after the other.
pub fn encode_term_triple(t1: &EncodedTerm, t2: &EncodedTerm, t3: &EncodedTerm) -> (r: Vec<u8>)
    ensures
        r@ == term_bytes(*t1) + term_bytes(*t2) + term_bytes(*t3),
{
    let mut vec = Vec::with_capacity(3 * WRITTEN_TERM_MAX_SIZE);
    write_term(&mut vec, t1);
    write_term(&mut vec, t2);
    write_term(&mut vec, t3);
    vec
}

/// The serializations of four terms, one after the other.
pub fn encode_term_quad(
    t1: &EncodedTerm,
    t2: &EncodedTerm,
    t3: &EncodedTerm,
    t4: &EncodedTerm,
) -> (r: Vec<u8>)
    ensures
        r@ == term_bytes(*t1) + term_bytes(*t2) + term_bytes(*t3) + term_bytes(*t4),
{
    let mut vec = Vec::with_capacity(4 * WRITTEN_TERM_MAX_SIZE);
    write_term(&mut vec, t1);
    write_term(&mut vec, t2);
    write_term(&mut vec, t3);
    write_term(&mut vec, t4);
    vec
}

/// Whether every term is well formed and none is the default graph marker.
pub open spec fn terms_wf(ts: Seq<EncodedTerm>) -> bool {
    forall|i: int| 0 <= i < ts.len() ==> term_wf(#[trigger] ts[i]) && !(ts[i] is DefaultGraph)
}

/// Reading back the serializations of terms, followed by any bytes, gives
/// back the terms and leaves the bytes that follow them.
pub proof fn lemma_terms_roundtrip(ts: Seq<EncodedTerm>, rest: Seq<u8>)
    requires
        terms_wf(ts),
    ensures
        read_terms_spec(terms_bytes(ts) + rest, ts.len()) == TermsRead::Read(ts, rest),
    decreases ts.len(),
{
    if ts.len() == 0 {
        assert(terms_bytes(ts) + rest =~= rest);
        assert(ts =~= Seq::<EncodedTerm>::empty());
    } else {
        let tail = ts.drop_first();
        assert(terms_wf(tail)) by {
            assert forall|i: int| 0 <= i < tail.len() implies term_wf(#[trigger] tail[i]) && !(
            tail[i] is DefaultGraph) by {
                assert(tail[i] == ts[i + 1]);
            }
        }
        lemma_terms_roundtrip(tail, rest);
        assert(term_wf(ts[0]) && !(ts[0] is DefaultGraph));
        assert(terms_bytes(ts) + rest =~= term_bytes(ts[0]) + (terms_bytes(tail) + rest));
        lemma_term_roundtrip(ts[0], terms_bytes(tail) + rest);
        assert(seq![ts[0]] + tail =~= ts);
    }
}

/// Whether a quad can be written with the encoding and read back: its terms
/// are well formed, only the graph name may be the default graph marker, and
/// it is exactly when the encoding is one of the default graph.
pub open spec fn quad_wf(e: QuadEncoding, q: EncodedQuad) -> bool {
    &&& term_wf(q.subject) && !(q.subject is DefaultGraph)
    &&& term_wf(q.predicate) && !(q.predicate is DefaultGraph)
    &&& term_wf(q.object) && !(q.object is DefaultGraph)
    &&& term_wf(q.graph_name)
    &&& (q.graph_name is DefaultGraph <==> is_default_graph_encoding(e))
}

/// Decoding the serialization of a quad, followed by any bytes, gives back
/// the quad, whichever of the index orders wrote it.
pub proof fn lemma_quad_roundtrip(e: QuadEncoding, q: EncodedQuad, rest: Seq<u8>)
    requires
        quad_wf(e, q),
    ensures
        decode_quad_spec(e, quad_bytes(e, q) + rest) == TermsRead::Read(quad_terms(e, q), rest),
        quad_from_terms(e, quad_terms(e, q)) == q,
{
    let ts = quad_terms(e, q);
    assert(terms_wf(ts));
    lemma_terms_roundtrip(ts, rest);
}

} // verus!
