//! Command-line options.

use std::path::PathBuf;
use vstd::prelude::*;

verus! {

/// Print git/jj status for every immediate subdirectory of a path.
#[derive(Debug)]
pub struct Args {
    /// Directory whose immediate children should be scanned (defaults to cwd)
    pub path: Option<PathBuf>,
    /// Skip network checks against remotes (local branch/dirty status only)
    pub no_remote: bool,
}

} // verus!
