//! The ways in which planning and running a batch can fail.

use vstd::prelude::*;
use crate::types::TaskId;

verus! {

/// A failure of planning or of a run. None of them is recovered from: the
/// caller gets the error, and what tasks have done so far stays done.
#[derive(Debug, PartialEq, Eq)]
pub enum PurtelError {
    /// Task `task` declares `identifier` more than once.
    DuplicateIdentifier { task: TaskId, identifier: String },
    /// The batch holds `tasks` tasks but `declarations` declarations.
    SizeMismatch { tasks: usize, declarations: usize },
    /// A run was asked for before the execution order was calculated.
    PlanNotBuilt,
    /// A task was asked for its action after it had given it away.
    AlreadyDispatched,
    /// Tasks are left without a level, and each of them waits for a task that
    /// has none either.
    WavePlanningDeadlock,
    /// The worker of task `task`, a member of level `wave`, ended abnormally.
    TaskFailed { wave: usize, task: TaskId },
}

} // verus!
