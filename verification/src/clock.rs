//! Timestamps as the store keeps them: text in the RFC 3339 form, in UTC, of
//! one width, so that the texts sort as the instants do.

use vstd::prelude::*;

verus! {

/// The RFC 3339 text, in UTC and to the second, of the instant that lies
/// `secs` seconds after the Unix epoch; `None` for an instant outside the
/// range of dates that chrono represents.
pub uninterp spec fn rfc3339_text(secs: int) -> Option<Seq<char>>;

/// The number of characters of a timestamp with a year of four digits, such
/// as `1970-01-01T00:00:00+00:00`.
pub const TEXT_WIDTH: usize = 25;

/// Calls `chrono::DateTime::to_rfc3339` on the instant that
/// `chrono::DateTime::from_timestamp` makes of `secs` and no nanoseconds.
/// Both depend on their arguments alone: the instant is taken in UTC, so that
/// neither the time zone of the machine nor a locale enters. Nothing is
/// proved of the text; the contract only gives it its name.
#[verifier::external_body]
fn chrono_rfc3339(secs: i64) -> (text: Option<String>)
    ensures
        match text {
            Some(t) => rfc3339_text(secs as int) == Some(t@),
            None => rfc3339_text(secs as int) is None,
        },
{
    match chrono::DateTime::from_timestamp(secs, 0) {
        Some(instant) => Some(instant.to_rfc3339()),
        None => None,
    }
}

/// Whether a timestamp text has the one width that the store keeps.
pub open spec fn is_sortable(text: Seq<char>) -> bool {
    text.len() == TEXT_WIDTH
}

/// Keeps a timestamp text of the width that the store keeps, and drops any
/// other: a year before 0 or after 9999 is written with a sign and would not
/// sort with the rest.
pub fn keep_sortable(text: Option<String>) -> (kept: Option<String>)
    ensures
        kept == match text {
            Some(t) => if is_sortable(t@) {
                Some(t)
            } else {
                None
            },
            None => None,
        },
{
    match text {
        Some(t) => {
            if t.as_str().unicode_len() == TEXT_WIDTH {
                Some(t)
            } else {
                None
            }
        },
        None => None,
    }
}

/// The text under which the store keeps the instant `secs` seconds after the
/// Unix epoch, such as `1970-01-01T00:00:00+00:00` for the epoch itself;
/// `None` where the instant has no text of the width that the store keeps.
pub fn timestamp_text(secs: i64) -> (text: Option<String>)
    ensures
        match text {
            Some(t) => rfc3339_text(secs as int) == Some(t@) && is_sortable(t@),
            None => !(rfc3339_text(secs as int) matches Some(t) && is_sortable(t)),
        },
{
    keep_sortable(chrono_rfc3339(secs))
}

} // verus!
