//! The run parameters a quiz invocation carries.

use vstd::prelude::*;

verus! {

/// The parameters of one quiz run, as the command line or an in-file
/// directive sets them.
pub struct Args {
    /// The script files to run.
    pub files: Vec<String>,
    /// Check all statements for correctness instead of running the quiz.
    pub check: bool,
    /// Shuffle the statements.
    pub random: bool,
    /// How many statements to ask; `None` or zero means every one.
    pub number_of_tests: Option<usize>,
}

} // verus!
