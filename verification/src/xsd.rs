//! The binary forms of the XSD values that the encoding stores natively:
//! each lexical form is parsed by `oxsdatatypes` and kept by its big-endian
//! bytes.

use vstd::prelude::*;
use crate::text::{all_digits, decimal, digits_value};
use oxsdatatypes::{
    Date, DateTime, DayTimeDuration, Decimal, Double, Duration, Float, GDay, GMonth, GMonthDay,
    GYear, GYearMonth, Time, YearMonthDuration,
};

verus! {

/// Whether the timezone of 18 stored date or time bytes can be written: the
/// last two bytes are the "no timezone" marker `FF FF` or an offset in
/// minutes other than the one `i16` value, `-32768`, whose negation
/// overflows when `oxsdatatypes` writes it.
pub open spec fn timezone_writable(bytes: [u8; 18]) -> bool {
    !(bytes@[16] == 0x80u8 && bytes@[17] == 0u8)
}

/// Whether the months and the seconds of 24 stored duration bytes can be
/// written together: they are not of opposite signs (months are the first 8
/// bytes, a big-endian `i64`; seconds the 16 that follow, a big-endian
/// `i128` in units of 10^-18).
pub open spec fn duration_writable(bytes: [u8; 24]) -> bool {
    let months_negative = bytes@[0] >= 0x80u8;
    let months_zero = forall|i: int| 0 <= i < 8 ==> bytes@[i] == 0u8;
    let seconds_negative = bytes@[8] >= 0x80u8;
    let seconds_zero = forall|i: int| 8 <= i < 24 ==> bytes@[i] == 0u8;
    &&& !(months_negative && !seconds_negative && !seconds_zero)
    &&& !(seconds_negative && !months_negative && !months_zero)
}

/// Whether the timezone of 18 stored date or time bytes can be written.
pub fn is_timezone_writable(bytes: &[u8; 18]) -> (r: bool)
    ensures
        r == timezone_writable(*bytes),
{
    !(bytes[16] == 0x80u8 && bytes[17] == 0u8)
}

/// Whether the months and the seconds of 24 stored duration bytes can be
/// written together.
pub fn is_duration_writable(bytes: &[u8; 24]) -> (r: bool)
    ensures
        r == duration_writable(*bytes),
{
    let months_negative = bytes[0] >= 0x80u8;
    let seconds_negative = bytes[8] >= 0x80u8;
    let mut months_zero = true;
    let mut i: usize = 0;
    while i < 8
        invariant
            i <= 8,
            months_zero == forall|j: int| 0 <= j < i ==> bytes@[j] == 0u8,
        decreases 8 - i,
    {
        if bytes[i] != 0 {
            months_zero = false;
        }
        i = i + 1;
    }
    let mut seconds_zero = true;
    let mut k: usize = 8;
    while k < 24
        invariant
            8 <= k <= 24,
            seconds_zero == forall|j: int| 8 <= j < k ==> bytes@[j] == 0u8,
        decreases 24 - k,
    {
        if bytes[k] != 0 {
            seconds_zero = false;
        }
        k = k + 1;
    }
    !(months_negative && !seconds_negative && !seconds_zero) && !(seconds_negative
        && !months_negative && !months_zero)
}

/// Name for the bytes of the `xsd:float` value that `oxsdatatypes::Float` parses
/// from a lexical form (`None` where it refuses the form).
pub uninterp spec fn xsd_float_bytes(lexical: Seq<char>) -> Option<[u8; 4]>;

/// `<oxsdatatypes::Float as FromStr>::from_str`, then `Float::to_be_bytes`: the
/// bytes of the parsed value, or `None` where the parse fails. Only named.
#[verifier::external_body]
pub(crate) fn parse_float_bytes(value: &str) -> (r: Option<[u8; 4]>)
    ensures
        r == xsd_float_bytes(value@),
{
    value.parse::<Float>().ok().map(Float::to_be_bytes)
}

/// Name for the bytes of the `xsd:double` value that `oxsdatatypes::Double` parses
/// from a lexical form (`None` where it refuses the form).
pub uninterp spec fn xsd_double_bytes(lexical: Seq<char>) -> Option<[u8; 8]>;

/// `<oxsdatatypes::Double as FromStr>::from_str`, then `Double::to_be_bytes`: the
/// bytes of the parsed value, or `None` where the parse fails. Only named.
#[verifier::external_body]
pub(crate) fn parse_double_bytes(value: &str) -> (r: Option<[u8; 8]>)
    ensures
        r == xsd_double_bytes(value@),
{
    value.parse::<Double>().ok().map(Double::to_be_bytes)
}

/// Name for the bytes of the `xsd:decimal` value that `oxsdatatypes::Decimal` parses
/// from a lexical form (`None` where it refuses the form).
pub uninterp spec fn xsd_decimal_bytes(lexical: Seq<char>) -> Option<[u8; 16]>;

/// `<oxsdatatypes::Decimal as FromStr>::from_str`, then `Decimal::to_be_bytes`: the
/// bytes of the parsed value, or `None` where the parse fails. Only named.
#[verifier::external_body]
pub(crate) fn parse_decimal_bytes(value: &str) -> (r: Option<[u8; 16]>)
    ensures
        r == xsd_decimal_bytes(value@),
{
    value.parse::<Decimal>().ok().map(Decimal::to_be_bytes)
}

/// Name for the bytes of the `xsd:dateTime` value that `oxsdatatypes::DateTime` parses
/// from a lexical form (`None` where it refuses the form).
pub uninterp spec fn xsd_date_time_bytes(lexical: Seq<char>) -> Option<[u8; 18]>;

/// `<oxsdatatypes::DateTime as FromStr>::from_str`, then `DateTime::to_be_bytes`: the
/// bytes of the parsed value, or `None` where the parse fails. Only named.
#[verifier::external_body]
pub(crate) fn parse_date_time_bytes(value: &str) -> (r: Option<[u8; 18]>)
    ensures
        r == xsd_date_time_bytes(value@),
{
    value.parse::<DateTime>().ok().map(DateTime::to_be_bytes)
}

/// Name for the bytes of the `xsd:time` value that `oxsdatatypes::Time` parses
/// from a lexical form (`None` where it refuses the form).
pub uninterp spec fn xsd_time_bytes(lexical: Seq<char>) -> Option<[u8; 18]>;

/// `<oxsdatatypes::Time as FromStr>::from_str`, then `Time::to_be_bytes`: the
/// bytes of the parsed value, or `None` where the parse fails. Only named.
#[verifier::external_body]
pub(crate) fn parse_time_bytes(value: &str) -> (r: Option<[u8; 18]>)
    ensures
        r == xsd_time_bytes(value@),
{
    value.parse::<Time>().ok().map(Time::to_be_bytes)
}

/// Name for the bytes of the `xsd:date` value that `oxsdatatypes::Date` parses
/// from a lexical form (`None` where it refuses the form).
pub uninterp spec fn xsd_date_bytes(lexical: Seq<char>) -> Option<[u8; 18]>;

/// `<oxsdatatypes::Date as FromStr>::from_str`, then `Date::to_be_bytes`: the
/// bytes of the parsed value, or `None` where the parse fails. Only named.
#[verifier::external_body]
pub(crate) fn parse_date_bytes(value: &str) -> (r: Option<[u8; 18]>)
    ensures
        r == xsd_date_bytes(value@),
{
    value.parse::<Date>().ok().map(Date::to_be_bytes)
}

/// Name for the bytes of the `xsd:gYearMonth` value that `oxsdatatypes::GYearMonth` parses
/// from a lexical form (`None` where it refuses the form).
pub uninterp spec fn xsd_g_year_month_bytes(lexical: Seq<char>) -> Option<[u8; 18]>;

/// `<oxsdatatypes::GYearMonth as FromStr>::from_str`, then `GYearMonth::to_be_bytes`: the
/// bytes of the parsed value, or `None` where the parse fails. Only named.
#[verifier::external_body]
pub(crate) fn parse_g_year_month_bytes(value: &str) -> (r: Option<[u8; 18]>)
    ensures
        r == xsd_g_year_month_bytes(value@),
{
    value.parse::<GYearMonth>().ok().map(GYearMonth::to_be_bytes)
}

/// Name for the bytes of the `xsd:gYear` value that `oxsdatatypes::GYear` parses
/// from a lexical form (`None` where it refuses the form).
pub uninterp spec fn xsd_g_year_bytes(lexical: Seq<char>) -> Option<[u8; 18]>;

/// `<oxsdatatypes::GYear as FromStr>::from_str`, then `GYear::to_be_bytes`: the
/// bytes of the parsed value, or `None` where the parse fails. Only named.
#[verifier::external_body]
pub(crate) fn parse_g_year_bytes(value: &str) -> (r: Option<[u8; 18]>)
    ensures
        r == xsd_g_year_bytes(value@),
{
    value.parse::<GYear>().ok().map(GYear::to_be_bytes)
}

/// Name for the bytes of the `xsd:gMonthDay` value that `oxsdatatypes::GMonthDay` parses
/// from a lexical form (`None` where it refuses the form).
pub uninterp spec fn xsd_g_month_day_bytes(lexical: Seq<char>) -> Option<[u8; 18]>;

/// `<oxsdatatypes::GMonthDay as FromStr>::from_str`, then `GMonthDay::to_be_bytes`: the
/// bytes of the parsed value, or `None` where the parse fails. Only named.
#[verifier::external_body]
pub(crate) fn parse_g_month_day_bytes(value: &str) -> (r: Option<[u8; 18]>)
    ensures
        r == xsd_g_month_day_bytes(value@),
{
    value.parse::<GMonthDay>().ok().map(GMonthDay::to_be_bytes)
}

/// Name for the bytes of the `xsd:gDay` value that `oxsdatatypes::GDay` parses
/// from a lexical form (`None` where it refuses the form).
pub uninterp spec fn xsd_g_day_bytes(lexical: Seq<char>) -> Option<[u8; 18]>;

/// `<oxsdatatypes::GDay as FromStr>::from_str`, then `GDay::to_be_bytes`: the
/// bytes of the parsed value, or `None` where the parse fails. Only named.
#[verifier::external_body]
pub(crate) fn parse_g_day_bytes(value: &str) -> (r: Option<[u8; 18]>)
    ensures
        r == xsd_g_day_bytes(value@),
{
    value.parse::<GDay>().ok().map(GDay::to_be_bytes)
}

/// Name for the bytes of the `xsd:gMonth` value that `oxsdatatypes::GMonth` parses
/// from a lexical form (`None` where it refuses the form).
pub uninterp spec fn xsd_g_month_bytes(lexical: Seq<char>) -> Option<[u8; 18]>;

/// `<oxsdatatypes::GMonth as FromStr>::from_str`, then `GMonth::to_be_bytes`: the
/// bytes of the parsed value, or `None` where the parse fails. Only named.
#[verifier::external_body]
pub(crate) fn parse_g_month_bytes(value: &str) -> (r: Option<[u8; 18]>)
    ensures
        r == xsd_g_month_bytes(value@),
{
    value.parse::<GMonth>().ok().map(GMonth::to_be_bytes)
}

/// Name for the bytes of the `xsd:duration` value that `oxsdatatypes::Duration` parses
/// from a lexical form (`None` where it refuses the form).
pub uninterp spec fn xsd_duration_bytes(lexical: Seq<char>) -> Option<[u8; 24]>;

/// `<oxsdatatypes::Duration as FromStr>::from_str`, then `Duration::to_be_bytes`: the
/// bytes of the parsed value, or `None` where the parse fails. Only named.
#[verifier::external_body]
pub(crate) fn parse_duration_bytes(value: &str) -> (r: Option<[u8; 24]>)
    ensures
        r == xsd_duration_bytes(value@),
{
    value.parse::<Duration>().ok().map(Duration::to_be_bytes)
}

/// Name for the bytes of the `xsd:yearMonthDuration` value that `oxsdatatypes::YearMonthDuration` parses
/// from a lexical form (`None` where it refuses the form).
pub uninterp spec fn xsd_year_month_duration_bytes(lexical: Seq<char>) -> Option<[u8; 8]>;

/// `<oxsdatatypes::YearMonthDuration as FromStr>::from_str`, then `YearMonthDuration::to_be_bytes`: the
/// bytes of the parsed value, or `None` where the parse fails. Only named.
#[verifier::external_body]
pub(crate) fn parse_year_month_duration_bytes(value: &str) -> (r: Option<[u8; 8]>)
    ensures
        r == xsd_year_month_duration_bytes(value@),
{
    value.parse::<YearMonthDuration>().ok().map(YearMonthDuration::to_be_bytes)
}

/// Name for the bytes of the `xsd:dayTimeDuration` value that `oxsdatatypes::DayTimeDuration` parses
/// from a lexical form (`None` where it refuses the form).
pub uninterp spec fn xsd_day_time_duration_bytes(lexical: Seq<char>) -> Option<[u8; 16]>;

/// `<oxsdatatypes::DayTimeDuration as FromStr>::from_str`, then `DayTimeDuration::to_be_bytes`: the
/// bytes of the parsed value, or `None` where the parse fails. Only named.
#[verifier::external_body]
pub(crate) fn parse_day_time_duration_bytes(value: &str) -> (r: Option<[u8; 16]>)
    ensures
        r == xsd_day_time_duration_bytes(value@),
{
    value.parse::<DayTimeDuration>().ok().map(DayTimeDuration::to_be_bytes)
}

/// What `<i64 as FromStr>::from_str` accepts: an optional `+` or `-`, then
/// one or more ASCII decimal digits whose signed value fits in an `i64`.
pub open spec fn i64_parse(s: Seq<char>) -> Option<i64> {
    let signed = s.len() > 0 && (s[0] == '+' || s[0] == '-');
    let d = if signed { s.drop_first() } else { s };
    let v = if signed && s[0] == '-' { -digits_value(d) } else { digits_value(d) };
    if d.len() > 0 && all_digits(d) && i64::MIN <= v <= i64::MAX {
        Some(v as i64)
    } else {
        None
    }
}

/// Parses a decimal integer as `<i64 as FromStr>::from_str` does: the
/// parsed integer, or `None` where the string is no decimal integer that
/// fits in an `i64`.
pub(crate) fn parse_i64(value: &str) -> (r: Option<i64>)
    ensures
        r == i64_parse(value@),
{
    let s = crate::utils::chars_of(value);
    let n = s.len();
    let mut start: usize = 0;
    let mut negative = false;
    if n > 0 && (s[0] == '+' || s[0] == '-') {
        start = 1;
        negative = s[0] == '-';
    }
    let ghost signed = s@.len() > 0 && (s@[0] == '+' || s@[0] == '-');
    let ghost d = if signed { s@.drop_first() } else { s@ };
    assert(d =~= s@.subrange(start as int, n as int));
    if start >= n {
        return None;
    }
    let limit: u64 = if negative { 0x8000_0000_0000_0000u64 } else { 0x7fff_ffff_ffff_ffffu64 };
    let mut acc: u64 = 0;
    let mut i: usize = start;
    assert(s@.subrange(start as int, start as int) =~= Seq::<char>::empty());
    while i < n
        invariant
            start <= i <= n,
            n == s@.len(),
            s@ == value@,
            d =~= s@.subrange(start as int, n as int),
            signed == (s@.len() > 0 && (s@[0] == '+' || s@[0] == '-')),
            d == (if signed { s@.drop_first() } else { s@ }),
            negative == (signed && s@[0] == '-'),
            all_digits(s@.subrange(start as int, i as int)),
            acc == digits_value(s@.subrange(start as int, i as int)),
            acc <= limit,
            limit == (if negative { 0x8000_0000_0000_0000u64 } else { 0x7fff_ffff_ffff_ffffu64 }),
        decreases n - i,
    {
        let c = s[i];
        let ghost prefix = s@.subrange(start as int, i as int);
        let ghost next = s@.subrange(start as int, i + 1);
        assert(next.drop_last() =~= prefix);
        assert(next.last() == c);
        if !('0' <= c && c <= '9') {
            assert(d[i - start] == c);
            assert(!all_digits(d));
            return None;
        }
        let dv: u64 = (c as u32 - 48) as u64;
        assert(all_digits(next)) by {
            assert forall|j: int| 0 <= j < next.len() implies crate::text::is_digit(#[trigger] next[j]) by {
                if j < next.len() - 1 {
                    assert(next[j] == prefix[j]);
                }
            }
        }
        if acc > (limit - dv) / 10 {
            assert(acc * 10 + dv > limit) by (nonlinear_arith)
                requires
                    acc > (limit - dv) / 10,
                    dv <= 9,
                    dv <= limit,
            ;
            proof {
                if all_digits(d) {
                    crate::text::lemma_digits_value_prefix(d, (i + 1 - start) as int);
                    assert(d.take((i + 1 - start) as int) =~= next);
                }
            }
            return None;
        }
        assert(acc * 10 + dv <= limit) by (nonlinear_arith)
            requires
                acc <= (limit - dv) / 10,
                dv <= 9,
                dv <= limit,
        ;
        acc = acc * 10 + dv;
        i = i + 1;
    }
    assert(s@.subrange(start as int, n as int) =~= d);
    if negative {
        if acc == 0x8000_0000_0000_0000u64 {
            Some(i64::MIN)
        } else {
            Some(-(acc as i64))
        }
    } else {
        Some(acc as i64)
    }
}


/// Name for the canonical lexical form that `oxsdatatypes::Float` writes for
/// the `xsd:float` acc stored in these bytes.
pub uninterp spec fn xsd_float_lexical(bytes: [u8; 4]) -> Seq<char>;

/// `oxsdatatypes::Float::from_be_bytes`, then `to_string`: the lexical form of
/// the stored acc. Only named.
#[verifier::external_body]
pub(crate) fn float_lexical(bytes: [u8; 4]) -> (r: String)
    ensures
        r@ == xsd_float_lexical(bytes),
{
    Float::from_be_bytes(bytes).to_string()
}

/// Name for the canonical lexical form that `oxsdatatypes::Double` writes for
/// the `xsd:double` acc stored in these bytes.
pub uninterp spec fn xsd_double_lexical(bytes: [u8; 8]) -> Seq<char>;

/// `oxsdatatypes::Double::from_be_bytes`, then `to_string`: the lexical form of
/// the stored acc. Only named.
#[verifier::external_body]
pub(crate) fn double_lexical(bytes: [u8; 8]) -> (r: String)
    ensures
        r@ == xsd_double_lexical(bytes),
{
    Double::from_be_bytes(bytes).to_string()
}

/// Name for the canonical lexical form that `oxsdatatypes::Decimal` writes for
/// the `xsd:decimal` acc stored in these bytes.
pub uninterp spec fn xsd_decimal_lexical(bytes: [u8; 16]) -> Seq<char>;

/// `oxsdatatypes::Decimal::from_be_bytes`, then `to_string`: the lexical form of
/// the stored acc. Only named.
#[verifier::external_body]
pub(crate) fn decimal_lexical(bytes: [u8; 16]) -> (r: String)
    ensures
        r@ == xsd_decimal_lexical(bytes),
{
    Decimal::from_be_bytes(bytes).to_string()
}

/// Name for the canonical lexical form that `oxsdatatypes::DateTime` writes for
/// the `xsd:dateTime` acc stored in these bytes.
pub uninterp spec fn xsd_date_time_lexical(bytes: [u8; 18]) -> Seq<char>;

/// `oxsdatatypes::DateTime::from_be_bytes`, then `to_string`: the lexical form of
/// the stored acc. Only named. Writing an offset of -32768 minutes
/// overflows in `TimezoneOffset`'s `Display`, so such bytes are left out.
#[verifier::external_body]
pub(crate) fn date_time_lexical(bytes: [u8; 18]) -> (r: String)
    requires
        timezone_writable(bytes),
    ensures
        r@ == xsd_date_time_lexical(bytes),
{
    DateTime::from_be_bytes(bytes).to_string()
}

/// Name for the canonical lexical form that `oxsdatatypes::Time` writes for
/// the `xsd:time` acc stored in these bytes.
pub uninterp spec fn xsd_time_lexical(bytes: [u8; 18]) -> Seq<char>;

/// `oxsdatatypes::Time::from_be_bytes`, then `to_string`: the lexical form of
/// the stored acc. Only named. Writing an offset of -32768 minutes
/// overflows in `TimezoneOffset`'s `Display`, so such bytes are left out.
#[verifier::external_body]
pub(crate) fn time_lexical(bytes: [u8; 18]) -> (r: String)
    requires
        timezone_writable(bytes),
    ensures
        r@ == xsd_time_lexical(bytes),
{
    Time::from_be_bytes(bytes).to_string()
}

/// Name for the canonical lexical form that `oxsdatatypes::Date` writes for
/// the `xsd:date` acc stored in these bytes.
pub uninterp spec fn xsd_date_lexical(bytes: [u8; 18]) -> Seq<char>;

/// `oxsdatatypes::Date::from_be_bytes`, then `to_string`: the lexical form of
/// the stored acc. Only named. Writing an offset of -32768 minutes
/// overflows in `TimezoneOffset`'s `Display`, so such bytes are left out.
#[verifier::external_body]
pub(crate) fn date_lexical(bytes: [u8; 18]) -> (r: String)
    requires
        timezone_writable(bytes),
    ensures
        r@ == xsd_date_lexical(bytes),
{
    Date::from_be_bytes(bytes).to_string()
}

/// Name for the canonical lexical form that `oxsdatatypes::GYearMonth` writes for
/// the `xsd:gYearMonth` acc stored in these bytes.
pub uninterp spec fn xsd_g_year_month_lexical(bytes: [u8; 18]) -> Seq<char>;

/// `oxsdatatypes::GYearMonth::from_be_bytes`, then `to_string`: the lexical form of
/// the stored acc. Only named. Writing an offset of -32768 minutes
/// overflows in `TimezoneOffset`'s `Display`, so such bytes are left out.
#[verifier::external_body]
pub(crate) fn g_year_month_lexical(bytes: [u8; 18]) -> (r: String)
    requires
        timezone_writable(bytes),
    ensures
        r@ == xsd_g_year_month_lexical(bytes),
{
    GYearMonth::from_be_bytes(bytes).to_string()
}

/// Name for the canonical lexical form that `oxsdatatypes::GYear` writes for
/// the `xsd:gYear` acc stored in these bytes.
pub uninterp spec fn xsd_g_year_lexical(bytes: [u8; 18]) -> Seq<char>;

/// `oxsdatatypes::GYear::from_be_bytes`, then `to_string`: the lexical form of
/// the stored acc. Only named. Writing an offset of -32768 minutes
/// overflows in `TimezoneOffset`'s `Display`, so such bytes are left out.
#[verifier::external_body]
pub(crate) fn g_year_lexical(bytes: [u8; 18]) -> (r: String)
    requires
        timezone_writable(bytes),
    ensures
        r@ == xsd_g_year_lexical(bytes),
{
    GYear::from_be_bytes(bytes).to_string()
}

/// Name for the canonical lexical form that `oxsdatatypes::GMonthDay` writes for
/// the `xsd:gMonthDay` acc stored in these bytes.
pub uninterp spec fn xsd_g_month_day_lexical(bytes: [u8; 18]) -> Seq<char>;

/// `oxsdatatypes::GMonthDay::from_be_bytes`, then `to_string`: the lexical form of
/// the stored acc. Only named. Writing an offset of -32768 minutes
/// overflows in `TimezoneOffset`'s `Display`, so such bytes are left out.
#[verifier::external_body]
pub(crate) fn g_month_day_lexical(bytes: [u8; 18]) -> (r: String)
    requires
        timezone_writable(bytes),
    ensures
        r@ == xsd_g_month_day_lexical(bytes),
{
    GMonthDay::from_be_bytes(bytes).to_string()
}

/// Name for the canonical lexical form that `oxsdatatypes::GDay` writes for
/// the `xsd:gDay` acc stored in these bytes.
pub uninterp spec fn xsd_g_day_lexical(bytes: [u8; 18]) -> Seq<char>;

/// `oxsdatatypes::GDay::from_be_bytes`, then `to_string`: the lexical form of
/// the stored acc. Only named. Writing an offset of -32768 minutes
/// overflows in `TimezoneOffset`'s `Display`, so such bytes are left out.
#[verifier::external_body]
pub(crate) fn g_day_lexical(bytes: [u8; 18]) -> (r: String)
    requires
        timezone_writable(bytes),
    ensures
        r@ == xsd_g_day_lexical(bytes),
{
    GDay::from_be_bytes(bytes).to_string()
}

/// Name for the canonical lexical form that `oxsdatatypes::GMonth` writes for
/// the `xsd:gMonth` acc stored in these bytes.
pub uninterp spec fn xsd_g_month_lexical(bytes: [u8; 18]) -> Seq<char>;

/// `oxsdatatypes::GMonth::from_be_bytes`, then `to_string`: the lexical form of
/// the stored acc. Only named. Writing an offset of -32768 minutes
/// overflows in `TimezoneOffset`'s `Display`, so such bytes are left out.
#[verifier::external_body]
pub(crate) fn g_month_lexical(bytes: [u8; 18]) -> (r: String)
    requires
        timezone_writable(bytes),
    ensures
        r@ == xsd_g_month_lexical(bytes),
{
    GMonth::from_be_bytes(bytes).to_string()
}

/// Name for the canonical lexical form that `oxsdatatypes::Duration` writes for
/// the `xsd:duration` acc stored in these bytes.
pub uninterp spec fn xsd_duration_lexical(bytes: [u8; 24]) -> Seq<char>;

/// `oxsdatatypes::Duration::from_be_bytes`, then `to_string`: the lexical form of
/// the stored acc. Only named. `Duration`'s `Display` fails on months and
/// seconds of opposite signs, so such bytes are left out.
#[verifier::external_body]
pub(crate) fn duration_lexical(bytes: [u8; 24]) -> (r: String)
    requires
        duration_writable(bytes),
    ensures
        r@ == xsd_duration_lexical(bytes),
{
    Duration::from_be_bytes(bytes).to_string()
}

/// Name for the canonical lexical form that `oxsdatatypes::YearMonthDuration` writes for
/// the `xsd:yearMonthDuration` acc stored in these bytes.
pub uninterp spec fn xsd_year_month_duration_lexical(bytes: [u8; 8]) -> Seq<char>;

/// `oxsdatatypes::YearMonthDuration::from_be_bytes`, then `to_string`: the lexical form of
/// the stored acc. Only named.
#[verifier::external_body]
pub(crate) fn year_month_duration_lexical(bytes: [u8; 8]) -> (r: String)
    ensures
        r@ == xsd_year_month_duration_lexical(bytes),
{
    YearMonthDuration::from_be_bytes(bytes).to_string()
}

/// Name for the canonical lexical form that `oxsdatatypes::DayTimeDuration` writes for
/// the `xsd:dayTimeDuration` acc stored in these bytes.
pub uninterp spec fn xsd_day_time_duration_lexical(bytes: [u8; 16]) -> Seq<char>;

/// `oxsdatatypes::DayTimeDuration::from_be_bytes`, then `to_string`: the lexical form of
/// the stored acc. Only named.
#[verifier::external_body]
pub(crate) fn day_time_duration_lexical(bytes: [u8; 16]) -> (r: String)
    ensures
        r@ == xsd_day_time_duration_lexical(bytes),
{
    DayTimeDuration::from_be_bytes(bytes).to_string()
}

/// The decimal text that `<i64 as ToString>::to_string` writes: a `-` for a
/// negative integer, then the digits of its magnitude without leading zeros.
pub open spec fn i64_lexical_spec(i: i64) -> Seq<char> {
    if i < 0 {
        seq!['-'] + decimal((-i) as nat)
    } else {
        decimal(i as nat)
    }
}

/// The decimal text of an integer, as `<i64 as ToString>::to_string`
/// writes it.
pub(crate) fn i64_lexical(i: i64) -> (r: String)
    ensures
        r@ == i64_lexical_spec(i),
{
    let mut s = String::new();
    if i < 0 {
        crate::utils::push_char(&mut s, '-');
        let m: u64 = if i == i64::MIN {
            0x8000_0000_0000_0000u64
        } else {
            (-i) as u64
        };
        crate::text::push_decimal(&mut s, m);
    } else {
        crate::text::push_decimal(&mut s, i as u64);
    }
    s
}

/// Whether the IEEE 754 binary32 value of these big-endian bytes is a NaN:
/// all exponent bits set and a fraction that is not zero.
pub open spec fn float_is_nan_bits(a: [u8; 4]) -> bool {
    (a[0] % 128) * 2 + a[1] / 128 == 255 && (a[1] % 128 != 0 || a[2] != 0 || a[3] != 0)
}

/// Whether the binary32 value of these bytes is a zero, of either sign.
pub open spec fn float_is_zero_bits(a: [u8; 4]) -> bool {
    a[0] % 128 == 0 && a[1] == 0 && a[2] == 0 && a[3] == 0
}

/// IEEE 754 equality of the binary32 values of these bytes: no NaN is equal
/// to anything, the two zeros are equal, and other values are equal when
/// their bits are.
pub open spec fn float_ieee_eq(a: [u8; 4], b: [u8; 4]) -> bool {
    !float_is_nan_bits(a) && !float_is_nan_bits(b) && (a@ == b@ || (float_is_zero_bits(a)
        && float_is_zero_bits(b)))
}

/// Whether the IEEE 754 binary64 value of these big-endian bytes is a NaN.
pub open spec fn double_is_nan_bits(a: [u8; 8]) -> bool {
    (a[0] % 128) * 16 + a[1] / 16 == 2047 && (a[1] % 16 != 0 || a[2] != 0 || a[3] != 0 || a[4] != 0
        || a[5] != 0 || a[6] != 0 || a[7] != 0)
}

/// Whether the binary64 value of these bytes is a zero, of either sign.
pub open spec fn double_is_zero_bits(a: [u8; 8]) -> bool {
    a[0] % 128 == 0 && a[1] == 0 && a[2] == 0 && a[3] == 0 && a[4] == 0 && a[5] == 0 && a[6] == 0
        && a[7] == 0
}

/// IEEE 754 equality of the binary64 values of these bytes.
pub open spec fn double_ieee_eq(a: [u8; 8], b: [u8; 8]) -> bool {
    !double_is_nan_bits(a) && !double_is_nan_bits(b) && (a@ == b@ || (double_is_zero_bits(a)
        && double_is_zero_bits(b)))
}

/// `Float::from_be_bytes(a) == Float::from_be_bytes(b)`: `Float` derives its
/// `==` from `f32`'s, which is IEEE 754 equality, and `from_be_bytes` keeps
/// the bits.
#[verifier::external_body]
pub(crate) fn float_bytes_eq(a: [u8; 4], b: [u8; 4]) -> (r: bool)
    ensures
        r == float_ieee_eq(a, b),
{
    Float::from_be_bytes(a) == Float::from_be_bytes(b)
}

/// `Double::from_be_bytes(a) == Double::from_be_bytes(b)`: `Double` derives
/// its `==` from `f64`'s, which is IEEE 754 equality.
#[verifier::external_body]
pub(crate) fn double_bytes_eq(a: [u8; 8], b: [u8; 8]) -> (r: bool)
    ensures
        r == double_ieee_eq(a, b),
{
    Double::from_be_bytes(a) == Double::from_be_bytes(b)
}

/// Whether the binary32 value of these bytes is a NaN.
pub fn float_is_nan(a: [u8; 4]) -> (r: bool)
    ensures
        r == float_is_nan_bits(a),
{
    (a[0] % 128) as u32 * 2 + (a[1] / 128) as u32 == 255 && (a[1] % 128 != 0 || a[2] != 0 || a[3] != 0)
}

/// Whether the binary64 value of these bytes is a NaN.
pub fn double_is_nan(a: [u8; 8]) -> (r: bool)
    ensures
        r == double_is_nan_bits(a),
{
    (a[0] % 128) as u32 * 16 + (a[1] / 16) as u32 == 2047 && (a[1] % 16 != 0 || a[2] != 0 || a[3] != 0
        || a[4] != 0 || a[5] != 0 || a[6] != 0 || a[7] != 0)
}

} // verus!
