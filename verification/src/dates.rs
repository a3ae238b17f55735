//! Dates as feeds write them, read by `chrono` into seconds since the epoch.

use vstd::prelude::*;

verus! {

/// `chrono::ParseError`: why a text is no date. It is carried through
/// unopened.
#[verifier::external_type_specification]
#[verifier::external_body]
pub struct ExDateError(chrono::ParseError);

/// The instant that `text` names as an RFC 2822 date, in whole seconds
/// since 1970-01-01 00:00:00 UTC, or `None` where `chrono` does not accept
/// `text` as such a date.
pub uninterp spec fn rfc2822_seconds(text: Seq<char>) -> Option<i64>;

/// The instant that `text` names as an RFC 3339 date, in whole seconds
/// since 1970-01-01 00:00:00 UTC, or `None` where `chrono` does not accept
/// `text` as such a date.
pub uninterp spec fn rfc3339_seconds(text: Seq<char>) -> Option<i64>;

/// `chrono::DateTime::parse_from_rfc2822`, then `timestamp` of the date.
/// Taken on trust: the result depends on `text` alone.
#[verifier::external_body]
pub(crate) fn parse_rfc2822(text: &str) -> (r: Result<i64, chrono::ParseError>)
    ensures
        match r {
            Ok(seconds) => rfc2822_seconds(text@) == Some(seconds),
            Err(_) => rfc2822_seconds(text@) is None,
        },
{
    chrono::DateTime::parse_from_rfc2822(text).map(|d| d.timestamp())
}

/// `chrono::DateTime::parse_from_rfc3339`, then `timestamp` of the date.
/// Taken on trust: the result depends on `text` alone.
#[verifier::external_body]
pub(crate) fn parse_rfc3339(text: &str) -> (r: Result<i64, chrono::ParseError>)
    ensures
        match r {
            Ok(seconds) => rfc3339_seconds(text@) == Some(seconds),
            Err(_) => rfc3339_seconds(text@) is None,
        },
{
    chrono::DateTime::parse_from_rfc3339(text).map(|d| d.timestamp())
}

} // verus!
