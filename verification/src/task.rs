//! A one-shot unit of work and its life cycle.

use vstd::prelude::*;
use crate::error::PurtelError;

verus! {

/// Where a task stands in its life: it still holds its action, or it has
/// handed the action out to be run.
#[derive(Debug, Copy, Clone, PartialEq, Eq, Structural)]
pub enum PurtelTaskState {
    WAITING,
    DISPATCHED,
}

/// A task owns an action of type `F` until the action is taken out of it,
/// which happens at most once. The library never looks into the action.
pub struct PurtelTask<F> {
    closure: Option<F>,
    state: PurtelTaskState,
}

/// The mathematical content of a [`PurtelTask`].
pub ghost struct TaskView<F> {
    pub state: PurtelTaskState,
    pub action: Option<F>,
}

impl<F> View for PurtelTask<F> {
    type V = TaskView<F>;

    closed spec fn view(&self) -> TaskView<F> {
        TaskView { state: self.state, action: self.closure }
    }
}

impl<F> PurtelTask<F> {
    #[verifier::type_invariant]
    spec fn holds_action_while_waiting(&self) -> bool {
        (self.state == PurtelTaskState::WAITING) == (self.closure is Some)
    }

    /// A waiting task that owns `closure`.
    pub fn new(closure: F) -> (task: Self)
        ensures
            task@.state == PurtelTaskState::WAITING,
            task@.action == Some(closure),
    {
        Self { closure: Some(closure), state: PurtelTaskState::WAITING }
    }

    /// The state the task is in. A task holds an action exactly as long as it
    /// is waiting.
    pub fn state(&self) -> (state: PurtelTaskState)
        ensures
            state == self@.state,
            (state == PurtelTaskState::WAITING) == (self@.action is Some),
    {
        proof {
            use_type_invariant(self);
        }
        self.state
    }

    /// Takes the action out of a waiting task, which is dispatched from then
    /// on. A task that is not waiting refuses and stays as it is.
    pub fn take_task(&mut self) -> (taken: Result<F, PurtelError>)
        ensures
            old(self)@.state == PurtelTaskState::WAITING ==> old(self)@.action == Some(
                taken->Ok_0,
            ) && taken is Ok && final(self)@ == (TaskView::<F> {
                state: PurtelTaskState::DISPATCHED,
                action: None,
            }),
            old(self)@.state != PurtelTaskState::WAITING ==> taken == Err::<F, PurtelError>(
                PurtelError::AlreadyDispatched,
            ) && final(self)@ == old(self)@,
    {
        proof {
            use_type_invariant(&*self);
        }
        if self.state != PurtelTaskState::WAITING {
            return Err(PurtelError::AlreadyDispatched);
        }
        let mut task = PurtelTask { closure: None, state: PurtelTaskState::DISPATCHED };
        core::mem::swap(self, &mut task);
        match task.closure {
            Some(closure) => Ok(closure),
            None => {
                // a waiting task holds its action
                assert(false);
                Err(PurtelError::AlreadyDispatched)
            },
        }
    }
}

} // verus!
