//! What a command line asks for.

use vstd::prelude::*;

verus! {

/// The options of one invocation: a directory to organize, or a log file to
/// undo a run from, and whether to stay quiet.
pub struct Args {
    /// The directory to organize.
    pub directory: Option<String>,
    /// The log file to restore a directory from.
    pub restore: Option<String>,
    /// Suppress informational and error messages.
    pub quiet: bool,
}

} // verus!
