//! Upgrade planning: telling development packages by their suffix,
//! classifying each foreign package against the remote index, and
//! deciding whether the planner has anything to ask about.

use vstd::prelude::*;
use crate::text;

verus! {

/// The version-control suffix words that mark a development package.
pub open spec fn vcs_words() -> Seq<Seq<char>> {
    seq!["git"@, "hg"@, "bzr"@, "svn"@, "cvs"@, "darcs"@]
}

/// Whether a development suffix starts at position `i`: a hyphen, a
/// version-control word, and then either the end or further hyphenated
/// segments.
pub open spec fn devel_suffix_at(s: Seq<char>, i: int) -> bool {
    exists|w: int|
        0 <= w < vcs_words().len() && {
            let v = #[trigger] vcs_words()[w];
            &&& 0 <= i
            &&& i + 1 + v.len() <= s.len()
            &&& s[i] == '-'
            &&& s.subrange(i + 1, i + 1 + v.len()) == v
            &&& {
                let rest = s.subrange(i + 1 + v.len(), s.len() as int);
                rest.len() == 0 || (rest[0] == '-' && rest.len() >= 2)
            }
        }
}

/// Whether a package name marks a development package: it ends in a
/// hyphenated version-control word, possibly followed by more hyphenated
/// segments.
pub open spec fn is_devel_name(s: Seq<char>) -> bool {
    exists|i: int| devel_suffix_at(s, i)
}

fn devel_at(chars: &Vec<char>, i: usize, word: &Vec<char>) -> (r: bool)
    requires
        i < chars@.len(),
    ensures
        r == ({
            &&& i + 1 + word@.len() <= chars@.len()
            &&& chars@[i as int] == '-'
            &&& chars@.subrange(i + 1, i + 1 + word@.len()) == word@
            &&& {
                let rest = chars@.subrange(i + 1 + word@.len(), chars@.len() as int);
                rest.len() == 0 || (rest[0] == '-' && rest.len() >= 2)
            }
        }),
{
    let n = chars.len();
    let wn = word.len();
    if chars[i] != '-' {
        return false;
    }
    if n - i < 1 || n - i - 1 < wn {
        return false;
    }
    let mut j: usize = 0;
    while j < wn
        invariant
            j <= wn,
            wn == word@.len(),
            i + 1 + wn <= n,
            n == chars@.len(),
            forall|k: int| 0 <= k < j ==> chars@[i + 1 + k] == word@[k],
        decreases wn - j,
    {
        if chars[i + 1 + j] != word[j] {
            proof {
                assert(chars@.subrange(i + 1, i + 1 + word@.len())[j as int] != word@[j as int]);
            }
            return false;
        }
        j = j + 1;
    }
    proof {
        assert(chars@.subrange(i + 1, i + 1 + word@.len()) =~= word@);
    }
    let rest_len = n - i - 1 - wn;
    if rest_len == 0 {
        return true;
    }
    let first_rest = chars[i + 1 + wn];
    proof {
        assert(chars@.subrange(i + 1 + word@.len(), chars@.len() as int)[0] == chars@[i + 1
            + wn]);
    }
    first_rest == '-' && rest_len >= 2
}

/// Decides whether a package name marks a development package.
pub fn pkg_is_devel(name: &str) -> (r: bool)
    ensures
        r == is_devel_name(name@),
{
    let chars = text::chars_of(name);
    let n = chars.len();
    let mut i: usize = 0;
    while i < n
        invariant
            i <= n,
            n == chars@.len(),
            chars@ == name@,
            forall|k: int| 0 <= k < i ==> !devel_suffix_at(name@, k),
        decreases n - i,
    {
        let mut w: usize = 0;
        while w < 6
            invariant
                w <= 6,
                i < n,
                n == chars@.len(),
                chars@ == name@,
                forall|k: int|
                    0 <= k < w ==> !({
                        let v = #[trigger] vcs_words()[k];
                        &&& i + 1 + v.len() <= name@.len()
                        &&& name@[i as int] == '-'
                        &&& name@.subrange(i + 1, i + 1 + v.len()) == v
                        &&& {
                            let rest = name@.subrange(i + 1 + v.len(), name@.len() as int);
                            rest.len() == 0 || (rest[0] == '-' && rest.len() >= 2)
                        }
                    }),
            decreases 6 - w,
        {
            let word_str = if w == 0 {
                "git"
            } else if w == 1 {
                "hg"
            } else if w == 2 {
                "bzr"
            } else if w == 3 {
                "svn"
            } else if w == 4 {
                "cvs"
            } else {
                "darcs"
            };
            let word = text::chars_of(word_str);
            proof {
                assert(word@ == vcs_words()[w as int]);
            }
            if devel_at(&chars, i, &word) {
                proof {
                    assert(devel_suffix_at(name@, i as int));
                }
                return true;
            }
            w = w + 1;
        }
        proof {
            assert(!devel_suffix_at(name@, i as int));
        }
        i = i + 1;
    }
    proof {
        assert forall|k: int| !devel_suffix_at(name@, k) by {
            if devel_suffix_at(name@, k) {
                let w = choose|w: int|
                    0 <= w < vcs_words().len() && {
                        let v = #[trigger] vcs_words()[w];
                        &&& 0 <= k
                        &&& k + 1 + v.len() <= name@.len()
                        &&& name@[k] == '-'
                        &&& name@.subrange(k + 1, k + 1 + v.len()) == v
                        &&& {
                            let rest = name@.subrange(k + 1 + v.len(), name@.len() as int);
                            rest.len() == 0 || (rest[0] == '-' && rest.len() >= 2)
                        }
                    };
                assert(0 <= k < n);
            }
        }
    }
    false
}

/// Where one foreign package lands in the upgrade plan.
#[derive(Clone, Copy, Debug, PartialEq, Eq, Structural)]
pub enum UpgradeClass {
    /// Remote knows it and it should be rebuilt.
    Outdated,
    /// It would be rebuilt, but an ignore list holds it back.
    Ignored,
    /// Remote knows it and the local build is current.
    UpToDate,
    /// Remote does not know it.
    Nonexistent,
}

/// Classifies one foreign package: a package the remote index knows is
/// outdated when the local version compares below the remote one, or when
/// development packages are requested and its name marks one — unless an
/// ignore list holds it back; a package the index does not know is
/// nonexistent, or ignored likewise.
pub fn classify_upgrade(
    name: &str,
    remote_exists: bool,
    local_older: bool,
    devel: bool,
    ignored: bool,
) -> (r: UpgradeClass)
    ensures
        ({
            let wants_rebuild = local_older || (devel && is_devel_name(name@));
            if remote_exists {
                if wants_rebuild {
                    if ignored {
                        r == UpgradeClass::Ignored
                    } else {
                        r == UpgradeClass::Outdated
                    }
                } else {
                    r == UpgradeClass::UpToDate
                }
            } else {
                if ignored {
                    r == UpgradeClass::Ignored
                } else {
                    r == UpgradeClass::Nonexistent
                }
            }
        }),
{
    if remote_exists {
        if local_older || (devel && pkg_is_devel(name)) {
            if ignored {
                UpgradeClass::Ignored
            } else {
                UpgradeClass::Outdated
            }
        } else {
            UpgradeClass::UpToDate
        }
    } else {
        if ignored {
            UpgradeClass::Ignored
        } else {
            UpgradeClass::Nonexistent
        }
    }
}

/// What the planner does once every foreign package is classified.
#[derive(Clone, Copy, Debug, PartialEq, Eq, Structural)]
pub enum UpgradePrompt {
    /// Everything is current: report so and exit, without prompting.
    AllUpToDate,
    /// Nothing to rebuild, but some packages exist nowhere: report them,
    /// without prompting.
    NothingToUpgrade,
    /// Outdated packages exist: show them and ask whether to upgrade.
    Ask,
}

/// Decides whether the upgrade planner prompts: with every package up to
/// date it exits without prompting; with only nonexistent packages it
/// reports them; only outdated packages are worth a question.
pub fn upgrade_prompt(outdated_empty: bool, nonexistent_empty: bool) -> (r: UpgradePrompt)
    ensures
        outdated_empty && nonexistent_empty ==> r == UpgradePrompt::AllUpToDate,
        outdated_empty && !nonexistent_empty ==> r == UpgradePrompt::NothingToUpgrade,
        !outdated_empty ==> r == UpgradePrompt::Ask,
{
    if outdated_empty && nonexistent_empty {
        UpgradePrompt::AllUpToDate
    } else if outdated_empty {
        UpgradePrompt::NothingToUpgrade
    } else {
        UpgradePrompt::Ask
    }
}

} // verus!
