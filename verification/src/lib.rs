//! Core logic of an interactive builder for a source-based package
//! repository: dependency resolution over a remote index, recipe review,
//! sandboxed builds, archive verification and upgrade planning.

mod error;
pub mod action_search;
pub mod action_upgrade;
pub mod alpm_wrapper;
pub mod aur_rpc_utils;
pub mod cli_args;
pub mod install_plan;
pub mod pacman;
pub mod print_format;
pub mod reviewing;
pub mod rua_paths;
pub mod srcinfo;
pub mod srcinfo_to_pkgbuild;
pub mod tar_check;
pub mod terminal_util;
pub mod text;
pub mod to_install;
pub mod wrapped;

pub use error::RuaError;
