//! Timestamp formatting and parsing.
//!
//! Times are unix timestamps in whole seconds, UTC.  The text forms are
//! produced and read by the `time` crate behind trusted wrappers; each format
//! is named by an uninterpreted spec function, since the exact text of a date
//! is a fixed function of the timestamp alone.
use vstd::prelude::*;

verus! {

/// Timestamps the formatting functions accept: from 1970 up to year 9999.
pub open spec fn valid_timestamp(t: i64) -> bool {
    0 <= t < 253402300800
}

/// The RFC-1123-style HTTP date of a timestamp, such as a Last-Modified value.
pub uninterp spec fn http_date_of(t: i64) -> Seq<char>;

/// The RFC 3339 form of a timestamp.
pub uninterp spec fn rfc3339_of(t: i64) -> Seq<char>;

/// The human-readable date-and-time form of a timestamp.
pub uninterp spec fn human_datetime_of(t: i64) -> Seq<char>;

/// The human-readable date-only form of a timestamp.
pub uninterp spec fn human_date_of(t: i64) -> Seq<char>;

/// What parsing an HTTP date gives back: both whether the text parses and the
/// timestamp it denotes depend on the text alone.
pub uninterp spec fn http_date_secs(s: Seq<char>) -> Option<i64>;

/// Relies on time's format_description::parse, OffsetDateTime::from_unix_timestamp
/// and OffsetDateTime::format: the HTTP date text of a timestamp, UTC, fixed by
/// the timestamp alone.
#[verifier::external_body]
pub fn format_http_date(t: i64) -> (r: String)
    requires
        valid_timestamp(t),
    ensures
        r@ == http_date_of(t),
{
    let fmt = time::format_description::parse(
        "[weekday repr:short], [day] [month repr:short] [year] [hour repr:24]:[minute]:[second] GMT",
    ).unwrap();
    let dt = time::OffsetDateTime::from_unix_timestamp(t).unwrap();
    dt.format(&fmt).unwrap()
}

/// Relies on time's OffsetDateTime::format with the well-known RFC 3339 format:
/// the text is fixed by the timestamp alone.
#[verifier::external_body]
pub fn format_rfc3339(t: i64) -> (r: String)
    requires
        valid_timestamp(t),
    ensures
        r@ == rfc3339_of(t),
{
    let dt = time::OffsetDateTime::from_unix_timestamp(t).unwrap();
    dt.format(&time::format_description::well_known::Rfc3339).unwrap()
}

/// Relies on time's formatting: day, long month name, year, 12-hour time, UTC;
/// fixed by the timestamp alone.
#[verifier::external_body]
pub fn format_human_datetime(t: i64) -> (r: String)
    requires
        valid_timestamp(t),
    ensures
        r@ == human_datetime_of(t),
{
    let fmt = time::format_description::parse(
        "[day] [month repr:long] [year], [hour repr:12]:[minute] [period] UTC",
    ).unwrap();
    let dt = time::OffsetDateTime::from_unix_timestamp(t).unwrap();
    dt.format(&fmt).unwrap()
}

/// Relies on time's formatting: day, long month name and year; fixed by the
/// timestamp alone.
#[verifier::external_body]
pub fn format_human_date(t: i64) -> (r: String)
    requires
        valid_timestamp(t),
    ensures
        r@ == human_date_of(t),
{
    let fmt = time::format_description::parse("[day] [month repr:long] [year]").unwrap();
    let dt = time::OffsetDateTime::from_unix_timestamp(t).unwrap();
    dt.format(&fmt).unwrap()
}

/// Relies on time's PrimitiveDateTime::parse with the HTTP date description:
/// whether the text parses, and the UTC timestamp it denotes, depend on the
/// text alone.
#[verifier::external_body]
pub fn parse_http_date(s: &str) -> (r: Option<i64>)
    ensures
        r == http_date_secs(s@),
{
    let fmt = time::format_description::parse(
        "[weekday repr:short], [day] [month repr:short] [year] [hour repr:24]:[minute]:[second] GMT",
    ).unwrap();
    match time::PrimitiveDateTime::parse(s, &fmt) {
        Ok(d) => Some(d.assume_utc().unix_timestamp()),
        Err(_) => None,
    }
}

/// Relies on std's SystemTime::now: seconds since the unix epoch, never
/// negative (a clock before 1970 reads as zero).
#[verifier::external_body]
pub fn now_seconds() -> (r: i64)
    ensures
        r >= 0,
{
    match std::time::SystemTime::now().duration_since(std::time::UNIX_EPOCH) {
        Ok(d) => i64::try_from(d.as_secs()).unwrap_or(i64::MAX),
        Err(_) => 0,
    }
}

} // verus!
