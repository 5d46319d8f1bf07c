//! The inputs of one synchronization run, as they arrive from the
//! command line: the repository coordinates, the branch to read, the
//! journal file to keep in sync, and an optional access token.

use vstd::prelude::*;

verus! {

/// What a run needs to know: repository owner and name, branch, target
/// journal file, and an optional personal access token for protected
/// repositories.
pub struct JournalInputs {
    pub owner: String,
    pub repo: String,
    pub branch: String,
    pub file: String,
    pub pat: Option<String>,
}

} // verus!
