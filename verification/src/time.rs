//! The clock and the timestamp formats accepted at the boundary.
//!
//! Timestamps travel through the library as milliseconds since the Unix
//! epoch.  Parsing a timestamp string is chrono's work; which format a
//! string must satisfy is decided here.

use vstd::prelude::*;

use crate::model::ValidationError;

verus! {

/// What chrono parses a string to under a given format, in epoch
/// milliseconds: a function of the two character sequences alone.
pub uninterp spec fn chrono_parse_of(s: Seq<char>, fmt: Seq<char>) -> Option<i64>;

/// The UTC-suffixed timestamp format accepted at the boundary.
pub open spec fn utc_format() -> Seq<char> {
    "%Y-%m-%dT%H:%M:%S%.fZ"@
}

/// The same format without the trailing `Z`, for fields taken as naive.
pub open spec fn naive_format() -> Seq<char> {
    "%Y-%m-%dT%H:%M:%S%.f"@
}

/// Relies on chrono's `NaiveDateTime::parse_from_str`, then
/// `and_utc().timestamp_millis()`: both are deterministic in the two
/// strings, so the outcome is a function of them alone.
#[verifier::external_body]
fn parse_with_format(s: &str, fmt: &str) -> (r: Option<i64>)
    ensures
        r == chrono_parse_of(s@, fmt@),
{
    match chrono::NaiveDateTime::parse_from_str(s, fmt) {
        Ok(dt) => Some(dt.and_utc().timestamp_millis()),
        Err(_) => None,
    }
}

/// Relies on chrono's `Local::now` for the present wall-clock instant, as
/// naive-local epoch milliseconds.  Nothing is promised of a clock reading.
#[verifier::external_body]
pub(crate) fn now_millis() -> i64 {
    chrono::Local::now().naive_local().and_utc().timestamp_millis()
}

/// Parses a `due` timestamp, which must carry the UTC suffix.  A string
/// chrono rejects under that format is a client-input error.
pub fn parse_due_timestamp(s: &str) -> (r: Result<i64, ValidationError>)
    ensures
        r is Ok <==> chrono_parse_of(s@, utc_format()) is Some,
        r is Ok ==> Some(r->Ok_0) == chrono_parse_of(s@, utc_format()),
        r is Err ==> r->Err_0 == ValidationError::BadTimestamp,
{
    match parse_with_format(s, "%Y-%m-%dT%H:%M:%S%.fZ") {
        Some(ms) => Ok(ms),
        None => Err(ValidationError::BadTimestamp),
    }
}

/// Which format a timestamp string must satisfy: the UTC-suffixed one when
/// it ends in `'Z'`, the naive one otherwise.
pub open spec fn flexible_parse_of(s: Seq<char>) -> Option<i64> {
    if s.len() > 0 && s.last() == 'Z' {
        chrono_parse_of(s, utc_format())
    } else {
        chrono_parse_of(s, naive_format())
    }
}

/// Parses a timestamp that may or may not carry the UTC suffix; the suffix
/// decides which format applies.
pub fn parse_timestamp(s: &str) -> (r: Result<i64, ValidationError>)
    ensures
        r is Ok <==> flexible_parse_of(s@) is Some,
        r is Ok ==> Some(r->Ok_0) == flexible_parse_of(s@),
        r is Err ==> r->Err_0 == ValidationError::BadTimestamp,
{
    let n = s.unicode_len();
    let ends_z = n > 0 && s.get_char(n - 1) == 'Z';
    let parsed = if ends_z {
        parse_with_format(s, "%Y-%m-%dT%H:%M:%S%.fZ")
    } else {
        parse_with_format(s, "%Y-%m-%dT%H:%M:%S%.f")
    };
    match parsed {
        Some(ms) => Ok(ms),
        None => Err(ValidationError::BadTimestamp),
    }
}

} // verus!
