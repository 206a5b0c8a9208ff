//! Purtel plans and drives the parallel execution of a batch of one-shot tasks.
//!
//! Every task declares which named data it reads and which it writes. From
//! those declarations the library derives, for each task, the earlier tasks it
//! has to wait for, and groups the tasks into successive execution levels: the
//! tasks of one level are pairwise independent and may run at the same time,
//! and a level starts only after the one before it has been joined.

pub mod analyze;
pub mod attributes;
pub mod codegen;
pub mod depth;
pub mod error;
pub mod executor;
pub mod laws;
pub mod schedule;
pub mod task;
pub mod tokens;
pub mod types;
pub mod usage;
pub mod validate;

pub use crate::error::PurtelError;
pub use crate::executor::PurtelExecutor;
pub use crate::task::{PurtelTask, PurtelTaskState, TaskView};
pub use crate::types::{TaskDependencies, TaskExecutionLevel, TaskId};
pub use crate::usage::{ParamUsageView, PurtelParamUsage, PurtelParamUsageKind};
