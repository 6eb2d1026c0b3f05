//! The hand-over to the package manager: which command installs which
//! packages, built archives and repository dependencies alike.

use vstd::prelude::*;
use vstd::string::StringExecFns;
use crate::text;

verus! {

/// One request to the package manager: its arguments, then `--`, then
/// the packages.
pub struct InstallRequest {
    pub base_args: Vec<String>,
    pub packages: Vec<String>,
}

fn string_lit(s: &str) -> (r: String)
    ensures
        r@ == s@,
{
    let mut r = String::new();
    r.append(s);
    r
}

/// The request that installs built archives: `-U`, with `--asdeps` when
/// they are wanted as dependencies only.
pub fn ensure_aur_packages_installed(packages: Vec<String>, is_dependency: bool) -> (r:
    InstallRequest)
    ensures
        r.packages@ == packages@,
        is_dependency ==> text::str_views(r.base_args@) =~= seq!["-U"@, "--asdeps"@],
        !is_dependency ==> text::str_views(r.base_args@) =~= seq!["-U"@],
{
    let mut base_args: Vec<String> = Vec::new();
    base_args.push(string_lit("-U"));
    if is_dependency {
        base_args.push(string_lit("--asdeps"));
    }
    proof {
        if is_dependency {
            assert(text::str_views(base_args@) =~= seq!["-U"@, "--asdeps"@]);
        } else {
            assert(text::str_views(base_args@) =~= seq!["-U"@]);
        }
    }
    InstallRequest { base_args, packages }
}

/// The request that installs repository dependencies: `-S --asdeps
/// --needed`, skipping what is already there.
pub fn ensure_pacman_packages_installed(packages: Vec<String>) -> (r: InstallRequest)
    ensures
        r.packages@ == packages@,
        text::str_views(r.base_args@) =~= seq!["-S"@, "--asdeps"@, "--needed"@],
{
    let mut base_args: Vec<String> = Vec::new();
    base_args.push(string_lit("-S"));
    base_args.push(string_lit("--asdeps"));
    base_args.push(string_lit("--needed"));
    proof {
        assert(text::str_views(base_args@) =~= seq!["-S"@, "--asdeps"@, "--needed"@]);
    }
    InstallRequest { base_args, packages }
}


/// What the installation prompt loop does next.
#[derive(Clone, Copy, Debug, PartialEq, Eq, Structural)]
pub enum InstallLoopAction {
    /// The elevated install ran and succeeded: the hand-over is done.
    Done,
    /// Check which packages are still missing and ask again for those.
    Recheck,
    /// Stop without installing the rest.
    Stop,
    /// Show the prompt again.
    AskAgain,
}

/// One step of the installation prompt: `s` runs the elevated install
/// and is done when it succeeds, `m` rechecks after a manual install,
/// `x` skips the rest; anything else asks again.
pub fn install_loop_step(input: &str, install_succeeded: bool) -> (r: InstallLoopAction)
    ensures
        ({
            let s = input@;
            if s == "s"@ {
                r == (if install_succeeded {
                    InstallLoopAction::Done
                } else {
                    InstallLoopAction::Recheck
                })
            } else if s == "m"@ {
                r == InstallLoopAction::Recheck
            } else if s == "x"@ {
                r == InstallLoopAction::Stop
            } else {
                r == InstallLoopAction::AskAgain
            }
        }),
{
    let c = text::chars_of(input);
    if text::chars_eq(&c, &text::chars_of("s")) {
        if install_succeeded {
            InstallLoopAction::Done
        } else {
            InstallLoopAction::Recheck
        }
    } else if text::chars_eq(&c, &text::chars_of("m")) {
        InstallLoopAction::Recheck
    } else if text::chars_eq(&c, &text::chars_of("x")) {
        InstallLoopAction::Stop
    } else {
        InstallLoopAction::AskAgain
    }
}

} // verus!
