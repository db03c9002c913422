use vstd::prelude::*;
use crate::error::OcelError;
use crate::text::{push_text, owned, trim_text, trim_seq, int_text, int_to_text};
use chrono::{DateTime, NaiveDate, NaiveDateTime, SecondsFormat, Utc};

verus! {

/// Milliseconds since the epoch of an RFC 3339 timestamp, as chrono reads it.
pub uninterp spec fn rfc3339_millis(text: Seq<char>) -> Option<i64>;

/// Milliseconds since the epoch of a naive date-time read with the given
/// chrono format and taken as UTC.
pub uninterp spec fn naive_datetime_millis(text: Seq<char>, format: Seq<char>) -> Option<i64>;

/// Milliseconds since the epoch of midnight UTC of a `%Y-%m-%d` date.
pub uninterp spec fn naive_date_millis(text: Seq<char>) -> Option<i64>;

/// RFC 3339 text (with `Z`) of a UTC instant, with or without milliseconds.
pub uninterp spec fn rfc3339_text(ms: i64, with_millis: bool) -> Option<Seq<char>>;

/// Trusted: `DateTime::parse_from_rfc3339` followed by `timestamp_millis`.
#[verifier::external_body]
fn parse_rfc3339(text: &str) -> (r: Option<i64>)
    ensures
        r == rfc3339_millis(text@),
{
    DateTime::parse_from_rfc3339(text).ok().map(|t| t.timestamp_millis())
}

/// Trusted: `NaiveDateTime::parse_from_str` followed by
/// `DateTime::<Utc>::from_naive_utc_and_offset(..).timestamp_millis()`.
#[verifier::external_body]
fn parse_naive_datetime(text: &str, format: &str) -> (r: Option<i64>)
    ensures
        r == naive_datetime_millis(text@, format@),
{
    NaiveDateTime::parse_from_str(text, format).ok().map(
        |t| DateTime::<Utc>::from_naive_utc_and_offset(t, Utc).timestamp_millis(),
    )
}

/// Trusted: `NaiveDate::parse_from_str(text, "%Y-%m-%d")` at midnight UTC
/// (`and_hms_opt(0, 0, 0)` is always defined).
#[verifier::external_body]
fn parse_naive_date(text: &str) -> (r: Option<i64>)
    ensures
        r == naive_date_millis(text@),
{
    NaiveDate::parse_from_str(text, "%Y-%m-%d").ok().and_then(|d| d.and_hms_opt(0, 0, 0)).map(
        |t| DateTime::<Utc>::from_naive_utc_and_offset(t, Utc).timestamp_millis(),
    )
}

/// Trusted: `DateTime::<Utc>::from_timestamp_millis` followed by
/// `to_rfc3339_opts(Secs or Millis, true)`.
#[verifier::external_body]
fn render_rfc3339(ms: i64, with_millis: bool) -> (r: Option<String>)
    ensures
        match r {
            Some(s) => rfc3339_text(ms, with_millis) == Some(s@),
            None => rfc3339_text(ms, with_millis) is None,
        },
{
    let precision = if with_millis { SecondsFormat::Millis } else { SecondsFormat::Secs };
    DateTime::<Utc>::from_timestamp_millis(ms).map(|t| t.to_rfc3339_opts(precision, true))
}

pub open spec fn fmt_t() -> Seq<char> {
    "%Y-%m-%dT%H:%M:%S%.f"@
}

pub open spec fn fmt_space() -> Seq<char> {
    "%Y-%m-%d %H:%M:%S%.f"@
}

/// Timestamp of an OCEL time text: RFC 3339 first, then naive date-times in
/// UTC, then a plain date at midnight UTC; surrounding white space ignored.
pub open spec fn timestamp_of(input: Seq<char>) -> Option<i64> {
    let v = trim_seq(input);
    if rfc3339_millis(v) is Some {
        rfc3339_millis(v)
    } else if naive_datetime_millis(v, fmt_t()) is Some {
        naive_datetime_millis(v, fmt_t())
    } else if naive_datetime_millis(v, fmt_space()) is Some {
        naive_datetime_millis(v, fmt_space())
    } else {
        naive_date_millis(v)
    }
}

pub open spec fn bad_timestamp_message(input: Seq<char>) -> Seq<char> {
    "invalid ISO 8601 timestamp '"@ + input + "'"@
}

/// Parses an ISO 8601 timestamp into milliseconds since the epoch.
pub fn parse_timestamp_ms(input: &str) -> (r: Result<i64, OcelError>)
    ensures
        match r {
            Ok(v) => timestamp_of(input@) == Some(v),
            Err(e) => timestamp_of(input@) is None && e.message@ == bad_timestamp_message(input@),
        },
{
    let value = trim_text(input);
    if let Some(v) = parse_rfc3339(value.as_str()) {
        return Ok(v);
    }
    let f1 = "%Y-%m-%dT%H:%M:%S%.f";
    proof { reveal_strlit("%Y-%m-%dT%H:%M:%S%.f"); }
    if let Some(v) = parse_naive_datetime(value.as_str(), f1) {
        return Ok(v);
    }
    let f2 = "%Y-%m-%d %H:%M:%S%.f";
    proof { reveal_strlit("%Y-%m-%d %H:%M:%S%.f"); }
    if let Some(v) = parse_naive_datetime(value.as_str(), f2) {
        return Ok(v);
    }
    if let Some(v) = parse_naive_date(value.as_str()) {
        return Ok(v);
    }
    let mut m = owned("invalid ISO 8601 timestamp '");
    proof { reveal_strlit("invalid ISO 8601 timestamp '"); reveal_strlit("'"); }
    push_text(&mut m, input);
    push_text(&mut m, "'");
    Err(OcelError::new(m))
}

/// RFC 3339 text of a timestamp: whole seconds when the milliseconds are
/// zero, otherwise with milliseconds.
pub open spec fn timestamp_text(ms: i64) -> Option<Seq<char>> {
    rfc3339_text(ms, ms % 1000 != 0)
}

pub open spec fn out_of_range_message(ms: i64) -> Seq<char> {
    "timestamp "@ + int_text(ms as int) + " is outside chrono range"@
}

/// Formats milliseconds since the epoch as UTC RFC 3339 text.
pub fn format_timestamp_ms(ms: i64) -> (r: Result<String, OcelError>)
    ensures
        match r {
            Ok(s) => timestamp_text(ms) == Some(s@),
            Err(e) => timestamp_text(ms) is None && e.message@ == out_of_range_message(ms),
        },
{
    let with_millis = ms % 1000 != 0;
    match render_rfc3339(ms, with_millis) {
        Some(s) => Ok(s),
        None => {
            let mut m = owned("timestamp ");
            proof { reveal_strlit("timestamp "); reveal_strlit(" is outside chrono range"); }
            let t = int_to_text(ms);
            push_text(&mut m, t.as_str());
            push_text(&mut m, " is outside chrono range");
            Err(OcelError::new(m))
        },
    }
}

} // verus!
