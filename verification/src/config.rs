//! The options of an export.
use vstd::prelude::*;
use std::path::PathBuf;

verus! {

/// A path of the operating system, of which nothing is known here.
#[verifier::external_type_specification]
#[verifier::external_body]
pub struct ExPathBuf(PathBuf);

/// The options read from the configuration file.
#[derive(Debug, PartialEq, Eq)]
pub struct Config {
    /// The root to export under; the working directory where there is none.
    pub root_path: Option<PathBuf>,
    pub compatibility: CompatibilityConfig,
}

/// Options for outputs that other tools read.
#[derive(Debug, PartialEq, Eq)]
pub struct CompatibilityConfig {
    /// Whether a sourcemap is written beside the exported tree.
    pub rojo_sourcemap: bool,
}

impl Default for CompatibilityConfig {
    fn default() -> (r: Self)
        ensures
            !r.rojo_sourcemap,
    {
        CompatibilityConfig { rojo_sourcemap: false }
    }
}

impl Default for Config {
    fn default() -> (r: Self)
        ensures
            r.root_path is None,
            !r.compatibility.rojo_sourcemap,
    {
        Config { root_path: None, compatibility: CompatibilityConfig::default() }
    }
}

/// Whether the path is relative, as `std::path::Path::is_relative` tells on
/// the platform the crate is built for.
pub uninterp spec fn path_is_relative(path: PathBuf) -> bool;

/// `path` under `base`, as `std::path::Path::join` puts it on the platform
/// the crate is built for.
pub uninterp spec fn path_joined(base: PathBuf, path: PathBuf) -> PathBuf;

/// Calls `std::path::Path::is_relative`. The answer depends on the path
/// alone; it is named, and nothing more is claimed of it.
#[verifier::external_body]
fn is_relative(path: &PathBuf) -> (r: bool)
    ensures
        r == path_is_relative(*path),
{
    path.is_relative()
}

/// Calls `std::path::Path::join`. The result depends on the two paths
/// alone; it is named, and nothing more is claimed of it.
#[verifier::external_body]
fn join_under(base: &PathBuf, path: &PathBuf) -> (r: PathBuf)
    ensures
        r == path_joined(*base, *path),
{
    base.join(path)
}

/// The root of an export: the working directory if none is configured; the
/// configured root, looked up under the working directory if it is
/// relative and taken as it is if it is absolute.
pub open spec fn resolved_root(root_path: Option<PathBuf>, current_dir: PathBuf) -> PathBuf {
    match root_path {
        None => current_dir,
        Some(path) => if path_is_relative(path) {
            path_joined(current_dir, path)
        } else {
            path
        },
    }
}

/// Finds the root of an export.
pub fn resolve_root(root_path: Option<PathBuf>, current_dir: PathBuf) -> (root: PathBuf)
    ensures
        root == resolved_root(root_path, current_dir),
{
    match root_path {
        None => current_dir,
        Some(path) => {
            if is_relative(&path) {
                join_under(&current_dir, &path)
            } else {
                path
            }
        },
    }
}

} // verus!
