//! Plain formatting of remote package fields: optional values, timestamps
//! and truncation for table cells.

use vstd::prelude::*;
use crate::error::RuaError;
use crate::text;

verus! {

/// An optional field for display: the value, or the word `None`.
pub fn opt(value: &Option<String>) -> (r: &str)
    ensures
        match value {
            Some(s) => r@ == s@,
            None => r@ == "None"@,
        },
{
    match value {
        Some(s) => s.as_str(),
        None => "None",
    }
}

/// The text a timestamp formats to: it depends on the timestamp alone.
pub uninterp spec fn date_text_of(timestamp: int) -> Seq<char>;

/// Relies on chrono's `DateTime::<Utc>::from_timestamp` and its strftime
/// formatting: the text is a function of the timestamp alone, and
/// timestamps within eight trillion seconds of the epoch are within
/// chrono's range.
#[verifier::external_body]
fn format_timestamp(timestamp: i64) -> (r: Option<String>)
    ensures
        -8_000_000_000_000 <= timestamp <= 8_000_000_000_000 ==> r is Some,
        match r {
            Some(s) => s@ == date_text_of(timestamp as int),
            None => true,
        },
{
    chrono::DateTime::<chrono::Utc>::from_timestamp(timestamp, 0).map(
        |d| d.naive_utc().format("%Y-%m-%d %H:%M:%S UTC").to_string(),
    )
}

/// Formats a timestamp as a date and time for display. Timestamps within
/// eight trillion seconds of the epoch always format; one the calendar
/// cannot carry is an error.
pub fn date(timestamp: i64) -> (r: Result<String, RuaError>)
    ensures
        -8_000_000_000_000 <= timestamp <= 8_000_000_000_000 ==> r is Ok,
        match r {
            Ok(s) => s@ == date_text_of(timestamp as int),
            Err(_) => true,
        },
{
    match format_timestamp(timestamp) {
        Some(s) => Ok(s),
        None => Err(RuaError::new(text::string_of(&text::chars_of(
            "Cannot convert timestamp to date/time",
        )))),
    }
}

/// Truncates a string for a table cell: at most `max_chars` characters
/// (never less than two), longer text cut two short with `..` appended.
pub fn trunc(s: &str, max_chars: usize) -> (r: String)
    ensures
        ({
            let m = if max_chars >= 2 {
                max_chars as int
            } else {
                2
            };
            if s@.len() <= m {
                r@ == s@
            } else {
                r@ == s@.subrange(0, m - 2) + ".."@
            }
        }),
{
    let m = if max_chars >= 2 {
        max_chars
    } else {
        2
    };
    let chars = text::chars_of(s);
    if chars.len() <= m {
        text::string_of(&chars)
    } else {
        let mut cut = text::sub_chars(&chars, 0, m - 2);
        cut.push('.');
        cut.push('.');
        proof {
            reveal_strlit("..");
            assert(cut@ =~= s@.subrange(0, m - 2) + ".."@);
        }
        text::string_of(&cut)
    }
}

} // verus!
