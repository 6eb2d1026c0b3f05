//! The command-line surface, as plain data: the front end parses the
//! arguments and hands them over in this shape.

use vstd::prelude::*;

verus! {

/// When terminal output is colored.
#[derive(Clone, Copy, Debug, PartialEq, Eq, Structural)]
pub enum CliColorType {
    Auto,
    Never,
    Always,
}

/// One invocation: the color choice and the subcommand.
pub struct CliArgs {
    pub color: CliColorType,
    pub action: Action,
}

/// The subcommands and their arguments.
pub enum Action {
    /// Show remote package information.
    Info { target: Vec<String> },
    /// Resolve, review, build and install packages by name.
    Install { asdeps: bool, offline: bool, target: Vec<String> },
    /// Build an existing recipe directory.
    Builddir { offline: bool, force: bool, target: Option<String> },
    /// Search the remote index.
    Search { target: Vec<String> },
    /// Statically check a build script.
    Shellcheck { target: Option<String> },
    /// Run archive review on an existing archive.
    Tarcheck { target: String },
    /// Rebuild what is outdated.
    Upgrade { devel: bool, printonly: bool, ignored: Option<String> },
}

} // verus!
