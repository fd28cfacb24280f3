//! The ways in which a run can fail inside the library.

use vstd::prelude::*;

verus! {

/// A failure that ends the run. None is retried: the computation is
/// deterministic, and a second attempt would fail the same way.
#[derive(Clone, Copy, Debug, PartialEq, Eq, Structural)]
pub enum RunError {
    /// The worker count is zero.
    Configuration,
    /// The input does not consist of lines of two comma-separated integers.
    Load,
    /// A worker was handed a slice with an index beyond the dataset.
    WorkerFault,
}

impl RunError {
    /// A short description for the caller to report.
    pub fn describe(&self) -> (text: &'static str)
        ensures
            text@ == match *self {
                RunError::Configuration => "configuration error: the worker count must be at least 1"@,
                RunError::Load => "load error: every input line must hold two integers separated by a comma"@,
                RunError::WorkerFault => "worker fault: the assigned slice reaches beyond the dataset"@,
            },
    {
        match self {
            RunError::Configuration => "configuration error: the worker count must be at least 1",
            RunError::Load => "load error: every input line must hold two integers separated by a comma",
            RunError::WorkerFault => "worker fault: the assigned slice reaches beyond the dataset",
        }
    }
}

} // verus!
