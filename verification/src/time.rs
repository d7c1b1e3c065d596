//! Times of last change as text, taken from the `chrono` crate.
//!
//! Nothing in this file is proved: the contract states what the `chrono`
//! documentation says of the functions it names.

use chrono::{DateTime, SecondsFormat, Utc};
use vstd::prelude::*;

verus! {

/// The RFC 3339 text, in UTC and ending in `Z`, of the time that lies `secs`
/// seconds and `nanos` nanoseconds after the start of 1970, with as many
/// digits after the second as the nanoseconds need: none, three, six or nine.
/// There is none where `chrono` has no date for the time: the seconds lie
/// beyond the years that it covers, or the nanoseconds are no part of a
/// second.
pub uninterp spec fn rfc3339_text(secs: i64, nanos: u32) -> Option<Seq<char>>;

/// `DateTime::<Utc>::from_timestamp`, and for the time that it gives
/// `DateTime::to_rfc3339_opts` with `SecondsFormat::AutoSi` and `Z` for UTC.
/// The text ends in `Z`, and it holds a point, before the fraction of the
/// second, exactly where the nanoseconds are no whole number of seconds.
#[verifier::external_body]
pub(crate) fn rfc3339(secs: i64, nanos: u32) -> (text: Option<String>)
    ensures
        text matches Some(written) ==> rfc3339_text(secs, nanos) == Some(written@),
        text is None ==> rfc3339_text(secs, nanos) is None,
        text matches Some(written) ==> written@.len() > 0 && written@.last() == 'Z',
        text matches Some(written) ==> (written@.contains('.') <==> nanos % 1_000_000_000 != 0),
{
    match DateTime::<Utc>::from_timestamp(secs, nanos) {
        Some(time) => Some(time.to_rfc3339_opts(SecondsFormat::AutoSi, true)),
        None => None,
    }
}

} // verus!
