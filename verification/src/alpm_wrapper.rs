//! The abstract interface over the local package database, and the pure
//! parsing of what its command-line front ends print.

use vstd::prelude::*;
use vstd::string::StringExecFns;
use crate::error::RuaError;
use crate::text;

verus! {

/// Capabilities of the local package manager that resolution and upgrade
/// planning need. Implementations drive the host's tools, so nothing is
/// promised of their answers; the callers state what holds whatever comes
/// back.
pub trait AlpmWrapper {
    /// Whether the package, or anything providing its name, is installed.
    fn is_installed(&self, package: &str) -> Result<bool, RuaError>;

    /// Whether the package, or anything providing its name, is
    /// installable from a configured sync repository.
    fn is_installable(&self, package: &str) -> Result<bool, RuaError>;

    /// The installed packages that no sync repository offers, as
    /// `(name, version)` pairs.
    fn get_non_pacman_packages(&self) -> Result<Vec<(String, String)>, RuaError>;

    /// Compares two package versions by the package manager's
    /// epoch-version-release rules.
    fn version_compare(&self, a: &str, b: &str) -> Result<core::cmp::Ordering, RuaError>;
}

/// Maps the integer a version-comparison tool prints to an ordering:
/// negative means older, zero equal, positive newer.
pub fn ordering_from_vercmp(value: i64) -> (r: core::cmp::Ordering)
    ensures
        value < 0 ==> r == core::cmp::Ordering::Less,
        value == 0 ==> r == core::cmp::Ordering::Equal,
        value > 0 ==> r == core::cmp::Ordering::Greater,
{
    if value < 0 {
        core::cmp::Ordering::Less
    } else if value == 0 {
        core::cmp::Ordering::Equal
    } else {
        core::cmp::Ordering::Greater
    }
}

/// How many times `c` occurs in `s`.
pub open spec fn count_char(s: Seq<char>, c: char) -> nat
    decreases s.len(),
{
    if s.len() == 0 {
        0
    } else {
        count_char(s.drop_last(), c) + if s.last() == c {
            1nat
        } else {
            0nat
        }
    }
}

proof fn lemma_count_char_split(s: Seq<char>, c: char, i: int)
    requires
        0 <= i < s.len(),
        s[i] == c,
        forall|j: int| 0 <= j < s.len() && j != i ==> s[j] != c,
    ensures
        count_char(s, c) == 1,
    decreases s.len(),
{
    if i == s.len() - 1 {
        assert(forall|j: int| 0 <= j < s.drop_last().len() ==> s.drop_last()[j] != c);
        lemma_count_char_none(s.drop_last(), c);
    } else {
        lemma_count_char_split(s.drop_last(), c, i);
    }
}

proof fn lemma_count_char_none(s: Seq<char>, c: char)
    requires
        forall|j: int| 0 <= j < s.len() ==> s[j] != c,
    ensures
        count_char(s, c) == 0,
    decreases s.len(),
{
    if s.len() > 0 {
        lemma_count_char_none(s.drop_last(), c);
    }
}

/// Splits one line of the foreign-package listing into name and version:
/// the two fields around the line's single space. A line without exactly
/// one space is malformed.
pub fn parse_foreign_line(line: &str) -> (r: Result<(String, String), RuaError>)
    ensures
        match r {
            Ok(p) => {
                &&& count_char(line@, ' ') == 1
                &&& exists|i: int|
                    0 <= i < line@.len() && line@[i] == ' ' && p.0@ == line@.subrange(0, i)
                        && p.1@ == #[trigger] line@.subrange(i + 1, line@.len() as int)
            },
            Err(_) => count_char(line@, ' ') != 1,
        },
{
    let chars = text::chars_of(line);
    let n = chars.len();
    let mut first: usize = 0;
    let mut found = false;
    let mut count: usize = 0;
    let mut i: usize = 0;
    while i < n
        invariant
            i <= n,
            n == chars@.len(),
            chars@ == line@,
            count <= i,
            found == (count > 0),
            found ==> first < i && chars@[first as int] == ' ',
            count as int == count_char(line@.subrange(0, i as int), ' '),
            !found ==> forall|j: int| 0 <= j < i ==> line@[j] != ' ',
            found ==> forall|j: int| 0 <= j < first ==> line@[j] != ' ',
        decreases n - i,
    {
        proof {
            assert(line@.subrange(0, i + 1).drop_last() =~= line@.subrange(0, i as int));
        }
        if chars[i] == ' ' {
            if !found {
                first = i;
                found = true;
            }
            count = count + 1;
        }
        i = i + 1;
    }
    proof {
        assert(line@.subrange(0, n as int) =~= line@);
    }
    if count != 1 {
        return Err(RuaError::new(String::from_str(
            "Failed to parse (package,version) from pacman line",
        )));
    }
    let name = text::string_of(&text::sub_chars(&chars, 0, first));
    let version = text::string_of(&text::sub_chars(&chars, first + 1, n));
    proof {
        assert(0 <= first < line@.len() && line@[first as int] == ' ' && name@ == line@.subrange(
            0,
            first as int,
        ) && version@ == line@.subrange(first as int + 1, line@.len() as int));
        assert(exists|i: int|
            0 <= i < line@.len() && line@[i] == ' ' && name@ == line@.subrange(0, i) && version@
                == #[trigger] line@.subrange(i + 1, line@.len() as int));
        assert(forall|j: int| 0 <= j < line@.len() && j != first ==> line@[j] != ' ') by {
            if exists|j: int| 0 <= j < line@.len() && j != first && line@[j] == ' ' {
                let j = choose|j: int| 0 <= j < line@.len() && j != first && line@[j] == ' ';
                if j < first {
                    assert(line@[j] != ' ');
                } else {
                    lemma_count_two(line@, ' ', first as int, j);
                }
            }
        }
    }
    Ok((name, version))
}

proof fn lemma_count_two(s: Seq<char>, c: char, i: int, j: int)
    requires
        0 <= i < j < s.len(),
        s[i] == c,
        s[j] == c,
    ensures
        count_char(s, c) >= 2,
    decreases s.len(),
{
    if j == s.len() - 1 {
        lemma_count_one(s.drop_last(), c, i);
    } else {
        lemma_count_two(s.drop_last(), c, i, j);
    }
}

proof fn lemma_count_one(s: Seq<char>, c: char, i: int)
    requires
        0 <= i < s.len(),
        s[i] == c,
    ensures
        count_char(s, c) >= 1,
    decreases s.len(),
{
    if i < s.len() - 1 {
        lemma_count_one(s.drop_last(), c, i);
    }
}

} // verus!
