//! Calendar rendering of epoch timestamps, through chrono.

use vstd::prelude::*;

verus! {

/// The `"%Y-%m-%d %H:%M:%S"` rendering of an epoch-seconds instant in
/// UTC, or empty text for instants outside chrono's range.
pub uninterp spec fn utc_datetime_text_of(secs: int) -> Seq<char>;

/// The `"%Y-%m-%d"` rendering of an epoch-seconds instant in UTC, or
/// empty text for instants outside chrono's range.
pub uninterp spec fn utc_date_text_of(secs: int) -> Seq<char>;

/// Relies on chrono's `DateTime::<Utc>::from_timestamp` and its strftime
/// formatting: under UTC the rendered text depends on the epoch seconds
/// alone.
#[verifier::external_body]
pub fn utc_datetime_text(secs: i64) -> (r: String)
    ensures
        r@ == utc_datetime_text_of(secs as int),
{
    match chrono::DateTime::<chrono::Utc>::from_timestamp(secs, 0) {
        Some(dt) => dt.format("%Y-%m-%d %H:%M:%S").to_string(),
        None => String::new(),
    }
}

/// Relies on chrono's `DateTime::<Utc>::from_timestamp` and its strftime
/// formatting: under UTC the rendered text depends on the epoch seconds
/// alone.
#[verifier::external_body]
pub fn utc_date_text(secs: i64) -> (r: String)
    ensures
        r@ == utc_date_text_of(secs as int),
{
    match chrono::DateTime::<chrono::Utc>::from_timestamp(secs, 0) {
        Some(dt) => dt.format("%Y-%m-%d").to_string(),
        None => String::new(),
    }
}

} // verus!
