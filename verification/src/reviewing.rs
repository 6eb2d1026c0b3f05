//! The per-recipe review loop's state machine: which menu actions each
//! state offers, and what one line of input selects.

use vstd::prelude::*;
use crate::text;

verus! {

/// What one menu answer does during recipe review.
#[derive(Clone, Copy, Debug, PartialEq, Eq, Structural)]
pub enum ReviewAction {
    /// Show the diff: against upstream while unmerged (reversed), the
    /// local changes once merged.
    ShowDiff { reverse: bool },
    /// Merge the upstream branch; only offered while unmerged.
    MergeUpstream,
    /// Statically check the build script; only offered once merged.
    Shellcheck,
    /// Open a shell in the review directory.
    OpenShell,
    /// Accept the recipe; only reachable once upstream is merged.
    Accept,
    /// Anything else: show the menu again.
    AskAgain,
}

/// Maps one line of user input to the review action it selects in the
/// given state. Accepting and checking need the upstream merged; merging
/// is offered only while it is not; the shell is always available.
pub fn review_step(upstream_merged: bool, input: &str) -> (r: ReviewAction)
    ensures
        ({
            let s = input@;
            match r {
                ReviewAction::ShowDiff { reverse } => s == "d"@ && reverse == !upstream_merged,
                ReviewAction::MergeUpstream => s == "m"@ && !upstream_merged,
                ReviewAction::Shellcheck => s == "s"@ && upstream_merged,
                ReviewAction::OpenShell => s == "t"@,
                ReviewAction::Accept => s == "o"@ && upstream_merged,
                ReviewAction::AskAgain => {
                    &&& s != "d"@
                    &&& s != "t"@
                    &&& !(s == "m"@ && !upstream_merged)
                    &&& !(s == "s"@ && upstream_merged)
                    &&& !(s == "o"@ && upstream_merged)
                },
            }
        }),
{
    let c = text::chars_of(input);
    if text::chars_eq(&c, &text::chars_of("t")) {
        ReviewAction::OpenShell
    } else if text::chars_eq(&c, &text::chars_of("s")) && upstream_merged {
        ReviewAction::Shellcheck
    } else if text::chars_eq(&c, &text::chars_of("d")) {
        ReviewAction::ShowDiff { reverse: !upstream_merged }
    } else if text::chars_eq(&c, &text::chars_of("m")) && !upstream_merged {
        ReviewAction::MergeUpstream
    } else if text::chars_eq(&c, &text::chars_of("o")) && upstream_merged {
        ReviewAction::Accept
    } else {
        ReviewAction::AskAgain
    }
}

/// The input the non-interactive build chooses: accept once merged,
/// merge first otherwise.
pub fn autobuild_input(upstream_merged: bool) -> (r: String)
    ensures
        upstream_merged ==> r@ == "o"@,
        !upstream_merged ==> r@ == "m"@,
{
    if upstream_merged {
        text::string_of(&text::chars_of("o"))
    } else {
        text::string_of(&text::chars_of("m"))
    }
}

/// Whether the loop warns that re-accepting discards prior build
/// artifacts: exactly when a build directory exists and upstream is
/// already merged.
pub fn rebuild_warning_needed(build_dir_exists: bool, upstream_merged: bool) -> (r: bool)
    ensures
        r == (build_dir_exists && upstream_merged),
{
    build_dir_exists && upstream_merged
}

} // verus!
