//! Plugin loader: a registry of loaded plugins, the resolution of their
//! declared dependencies (with semantic-version requirements), and the
//! small pieces of the plugin port that decide what may be called.

use vstd::prelude::*;

pub mod dependency;
pub mod global;
pub mod loading;
pub mod manager;
pub mod plugin;
pub mod port;
pub mod semver_bridge;
pub mod text;

verus! {

/// Version of the loader itself; plugins may depend on it as `loader@<req>`.
pub const LOADER_VERSION: &'static str = "0.1.0";

/// The loader's version as text.
pub open spec fn loader_version_text() -> Seq<char> {
    seq!['0', '.', '1', '.', '0']
}

/// Returns the loader's version string, `"0.1.0"`.
pub fn loader_version() -> (v: &'static str)
    ensures
        v@ == loader_version_text(),
{
    proof {
        reveal_strlit("0.1.0");
    }
    LOADER_VERSION
}

} // verus!
