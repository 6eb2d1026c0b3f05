//! Remote search: matching packages against the remaining keywords,
//! case-insensitively over name and description.

use vstd::prelude::*;
use crate::text;

verus! {

/// Whether a package matches a keyword: its ASCII-lowercased name or
/// description contains the lowercased keyword.
pub open spec fn keyword_matches(
    name: Seq<char>,
    description: Option<Seq<char>>,
    keyword: Seq<char>,
) -> bool {
    ||| text::contains_seq(text::lower_seq(name), text::lower_seq(keyword))
    ||| (description matches Some(d) && text::contains_seq(
        text::lower_seq(d),
        text::lower_seq(keyword),
    ))
}

/// Decides whether a package matches a keyword.
pub fn contains_keyword(name: &str, description: &Option<String>, keyword: &str) -> (r: bool)
    ensures
        r == keyword_matches(
            name@,
            match description {
                Some(d) => Some(d@),
                None => None,
            },
            keyword@,
        ),
{
    let needle = text::lower_chars(&text::chars_of(keyword));
    if text::contains_chars(&text::lower_chars(&text::chars_of(name)), &needle) {
        return true;
    }
    match description {
        Some(d) => text::contains_chars(&text::lower_chars(&text::chars_of(d.as_str())), &needle),
        None => false,
    }
}

} // verus!
