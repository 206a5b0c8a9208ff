//! The executor: a batch of tasks, their declarations, and the order in which
//! the tasks are handed out to be run.
//!
//! The executor decides and keeps the books; it starts no worker itself. Its
//! caller asks for the next level, runs the actions it gets, each on a worker
//! of its own, joins them all, and reports how each of them ended. Only then
//! is the next level to be had.

use vstd::prelude::*;
use crate::analyze::conflict_sets;
use crate::error::PurtelError;
use crate::laws::{law_level_ascending, law_plan_holds_tasks};
use crate::depth::execution_plan;
use crate::task::{PurtelTask, PurtelTaskState, TaskView};
use crate::types::{id_seq, id_table, TaskExecutionLevel, TaskId};
use crate::usage::{ParamUsageView, PurtelParamUsage};
use crate::validate::{declarations_valid, reports_first_duplicate};

verus! {

/// Holds the tasks of a batch together with what they declare, works out the
/// execution levels, and hands the tasks out level by level.
pub struct PurtelExecutor<F> {
    param_usage_desc: Option<Vec<Vec<PurtelParamUsage>>>,
    exe_order: Option<Vec<TaskExecutionLevel>>,
    tasks: Vec<PurtelTask<F>>,
    next_level: usize,
    in_flight: bool,
    failed: Option<(usize, TaskId)>,
}

/// A plan fits a batch of `n` tasks: it holds nothing but tasks of the batch,
/// and none of them twice.
pub open spec fn plan_fits(plan: Seq<Seq<int>>, n: nat) -> bool {
    &&& forall|l: int, k: int|
        0 <= l < plan.len() && 0 <= k < plan[l].len() ==> 0 <= #[trigger] plan[l][k] < n
    &&& forall|l: int, k: int, m: int, j: int|
        0 <= l < plan.len() && 0 <= k < plan[l].len() && 0 <= m < plan.len() && 0 <= j
            < plan[m].len() && #[trigger] plan[l][k] == #[trigger] plan[m][j] ==> l == m && k == j
}

/// The plan of any batch fits that batch.
pub proof fn lemma_plan_fits(preds: Seq<Set<int>>)
    ensures
        plan_fits(execution_plan(preds), preds.len()),
{
    let plan = execution_plan(preds);
    assert forall|l: int, k: int| 0 <= l < plan.len() && 0 <= k < plan[l].len() implies 0
        <= #[trigger] plan[l][k] < preds.len() by {
        law_plan_holds_tasks(preds, l, k);
    }
    assert forall|l: int, k: int, m: int, j: int|
        0 <= l < plan.len() && 0 <= k < plan[l].len() && 0 <= m < plan.len() && 0 <= j
            < plan[m].len() && #[trigger] plan[l][k] == #[trigger] plan[m][j] implies l == m && k
        == j by {
        law_plan_holds_tasks(preds, l, k);
        law_plan_holds_tasks(preds, m, j);
        if k < j {
            law_level_ascending(preds, l, k, j);
        }
        if j < k {
            law_level_ascending(preds, l, j, k);
        }
    }
}

impl<F> PurtelExecutor<F> {
    /// The declarations, as long as the execution order has not been
    /// calculated from them.
    pub closed spec fn declarations(&self) -> Option<Seq<Seq<ParamUsageView>>> {
        match self.param_usage_desc {
            Some(decls) => Some(decls.deep_view()),
            None => None,
        }
    }

    /// The execution levels, once they have been calculated.
    pub closed spec fn plan(&self) -> Option<Seq<Seq<int>>> {
        match self.exe_order {
            Some(order) => Some(id_table(order@)),
            None => None,
        }
    }

    /// The tasks of the batch, by their ids.
    pub closed spec fn tasks(&self) -> Seq<TaskView<F>> {
        Seq::new(self.tasks.len() as nat, |t: int| self.tasks[t]@)
    }

    /// How many levels have been handed out.
    pub closed spec fn levels_started(&self) -> nat {
        self.next_level as nat
    }

    /// Whether a level has been handed out whose workers have not been
    /// reported as joined.
    pub closed spec fn joining(&self) -> bool {
        self.in_flight
    }

    /// The level and the task of the first worker that was reported to have
    /// ended abnormally.
    pub closed spec fn failure(&self) -> Option<(usize, TaskId)> {
        self.failed
    }

    /// The executor's books are in order.
    pub closed spec fn well_formed(&self) -> bool {
        &&& match self.param_usage_desc {
            Some(decls) => decls.len() == self.tasks.len() && self.exe_order is None,
            None => true,
        }
        &&& match self.exe_order {
            Some(order) => plan_fits(id_table(order@), self.tasks.len() as nat) && self.next_level
                <= order.len(),
            None => self.next_level == 0,
        }
        &&& self.in_flight ==> self.next_level > 0 && self.failed is None
        &&& self.failed is Some ==> self.next_level > 0
    }

    /// Some task of the level that is to be handed out next is not waiting.
    pub open spec fn next_level_blocked(&self) -> bool {
        &&& self.plan() is Some
        &&& self.levels_started() < self.plan()->0.len()
        &&& exists|k: int|
            0 <= k < self.plan()->0[self.levels_started() as int].len()
                && self.tasks()[#[trigger] self.plan()->0[self.levels_started() as int][k]].state
                != PurtelTaskState::WAITING
    }

    /// Why the next level cannot be handed out, if it cannot.
    pub open spec fn dispatch_error(&self) -> Option<PurtelError> {
        if self.plan() is None {
            Some(PurtelError::PlanNotBuilt)
        } else {
            match self.failure() {
                Some((wave, task)) => Some(PurtelError::TaskFailed { wave, task }),
                None => if self.next_level_blocked() {
                    Some(PurtelError::AlreadyDispatched)
                } else {
                    None
                },
            }
        }
    }

    /// The level that was handed out last.
    pub open spec fn joined_level(&self) -> Seq<int> {
        self.plan()->0[self.levels_started() - 1]
    }

    /// Task `t` has not been handed out by the executor.
    pub open spec fn awaits_dispatch(&self, t: int) -> bool {
        &&& 0 <= t < self.tasks().len()
        &&& match self.plan() {
            Some(plan) => forall|l: int|
                0 <= l < self.levels_started() && l < plan.len() ==> !(#[trigger] plan[l]).contains(t),
            None => true,
        }
    }

    /// Every task that the executor has not handed out is still waiting.
    pub open spec fn intact(&self) -> bool {
        forall|t: int| #[trigger] self.awaits_dispatch(t) ==> self.tasks()[t].state == PurtelTaskState::WAITING
    }

    /// An executor for `tasks`, of which `param_usage_desc` holds the
    /// declarations, task by task. The two have to be of the same length.
    pub fn new(tasks: Vec<PurtelTask<F>>, param_usage_desc: Vec<Vec<PurtelParamUsage>>) -> (made:
        Result<Self, PurtelError>)
        ensures
            tasks.len() != param_usage_desc.len() ==> made is Err && made->Err_0 == (
            PurtelError::SizeMismatch {
                tasks: tasks.len(),
                declarations: param_usage_desc.len(),
            }),
            tasks.len() == param_usage_desc.len() ==> made is Ok && {
                let executor = made->Ok_0;
                &&& executor.well_formed()
                &&& executor.declarations() == Some(param_usage_desc.deep_view())
                &&& executor.plan() is None
                &&& executor.tasks() == Seq::new(tasks.len() as nat, |t: int| tasks[t]@)
                &&& executor.levels_started() == 0
                &&& !executor.joining()
                &&& executor.failure() is None
            },
    {
        if tasks.len() != param_usage_desc.len() {
            return Err(
                PurtelError::SizeMismatch {
                    tasks: tasks.len(),
                    declarations: param_usage_desc.len(),
                },
            );
        }
        Ok(
            Self {
                exe_order: None,
                param_usage_desc: Some(param_usage_desc),
                tasks,
                next_level: 0,
                in_flight: false,
                failed: None,
            },
        )
    }

    /// Calculates the order in which the tasks are to be run: checks the
    /// declarations, works out what every task waits for, and groups the
    /// tasks into levels. The declarations are used up by this, whether or not
    /// they pass the check.
    pub fn calc_and_verify_exe_order(&mut self) -> (planned: Result<(), PurtelError>)
        requires
            old(self).well_formed(),
            old(self).declarations() is Some,
        ensures
            final(self).well_formed(),
            final(self).declarations() is None,
            final(self).tasks() == old(self).tasks(),
            final(self).levels_started() == 0,
            !final(self).joining(),
            final(self).failure() == old(self).failure(),
            match planned {
                Ok(_) => {
                    &&& declarations_valid(old(self).declarations()->0)
                    &&& final(self).plan() == Some(
                        execution_plan(conflict_sets(old(self).declarations()->0)),
                    )
                },
                Err(error) => {
                    &&& reports_first_duplicate(old(self).declarations()->0, error)
                    &&& final(self).plan() is None
                },
            },
    {
        let declarations = self.param_usage_desc.take();
        match declarations {
            None => {
                // the declarations are still there
                assert(false);
                Ok(())
            },
            Some(param_usages) => {
                match Self::assert_no_duplicates(&param_usages) {
                    Err(error) => Err(error),
                    Ok(_) => {
                        let deps = Self::calc_task_dependencies(&param_usages);
                        let exe_order = Self::calc_execution_levels(deps);
                        proof {
                            lemma_plan_fits(conflict_sets(param_usages.deep_view()));
                        }
                        self.exe_order = Some(exe_order);
                        Ok(())
                    },
                }
            },
        }
    }

    /// Whether the execution order has been calculated.
    pub fn is_planned(&self) -> (planned: bool)
        ensures
            planned == self.plan() is Some,
    {
        self.exe_order.is_some()
    }

    /// Whether the declarations are still to be turned into an execution
    /// order.
    pub fn has_declarations(&self) -> (held: bool)
        ensures
            held == self.declarations() is Some,
    {
        self.param_usage_desc.is_some()
    }

    /// Whether a level is out whose workers have not been reported as joined.
    pub fn is_joining(&self) -> (joining: bool)
        ensures
            joining == self.joining(),
    {
        self.in_flight
    }

    /// The execution levels, once they have been calculated.
    pub fn execution_levels(&self) -> (levels: Option<&Vec<TaskExecutionLevel>>)
        ensures
            match levels {
                Some(order) => self.plan() == Some(id_table(order@)),
                None => self.plan() is None,
            },
    {
        self.exe_order.as_ref()
    }

    /// In a well-kept executor whose remaining tasks are all waiting, the next
    /// level is not blocked.
    pub proof fn lemma_intact_is_not_blocked(&self)
        requires
            self.well_formed(),
            self.intact(),
        ensures
            !self.next_level_blocked(),
    {
        if self.next_level_blocked() {
            let plan = self.plan()->0;
            let next = self.levels_started() as int;
            let k = choose|k: int|
                0 <= k < plan[next].len() && self.tasks()[#[trigger] plan[next][k]].state
                    != PurtelTaskState::WAITING;
            let t = plan[next][k];
            assert forall|l: int| 0 <= l < next implies !(#[trigger] plan[l]).contains(t) by {
                if plan[l].contains(t) {
                    let j = choose|j: int| 0 <= j < plan[l].len() && plan[l][j] == t;
                    assert(plan[l][j] == plan[next][k]);
                }
            }
            assert(self.awaits_dispatch(t));
        }
    }

    /// Hands out the next level: takes the action out of each of its tasks
    /// and returns the actions in the order of the level. When every level
    /// has been handed out, there is nothing to return. Nothing is handed out
    /// before the order has been calculated, after a worker has failed, or
    /// when one of the tasks of the level is not waiting; the executor then
    /// stays as it is.
    pub fn dispatch_level(&mut self) -> (handed: Result<Option<Vec<F>>, PurtelError>)
        requires
            old(self).well_formed(),
            !old(self).joining(),
        ensures
            final(self).well_formed(),
            final(self).plan() == old(self).plan(),
            final(self).declarations() == old(self).declarations(),
            final(self).failure() == old(self).failure(),
            final(self).tasks().len() == old(self).tasks().len(),
            old(self).intact() ==> final(self).intact(),
            match handed {
                Err(error) => {
                    &&& old(self).dispatch_error() == Some(error)
                    &&& *final(self) == *old(self)
                },
                Ok(None) => {
                    &&& old(self).dispatch_error() is None
                    &&& old(self).levels_started() == old(self).plan()->0.len()
                    &&& *final(self) == *old(self)
                },
                Ok(Some(actions)) => {
                    let level = old(self).plan()->0[old(self).levels_started() as int];
                    &&& old(self).dispatch_error() is None
                    &&& old(self).levels_started() < old(self).plan()->0.len()
                    &&& final(self).levels_started() == old(self).levels_started() + 1
                    &&& final(self).joining()
                    &&& actions.len() == level.len()
                    &&& forall|k: int|
                        0 <= k < level.len() ==> old(self).tasks()[level[k]].action == Some(
                            #[trigger] actions[k],
                        )
                    &&& forall|t: int|
                        0 <= t < old(self).tasks().len() ==> #[trigger] final(self).tasks()[t]
                            == if level.contains(t) {
                            TaskView::<F> { state: PurtelTaskState::DISPATCHED, action: None }
                        } else {
                            old(self).tasks()[t]
                        }
                },
            },
    {
        if self.exe_order.is_none() {
            return Err(PurtelError::PlanNotBuilt);
        }
        if let Some((wave, task)) = self.failed {
            return Err(PurtelError::TaskFailed { wave, task });
        }
        let ghost before = *self;
        let order = self.exe_order.as_ref().unwrap();
        if self.next_level >= order.len() {
            return Ok(None);
        }
        let level = &order[self.next_level];
        let ghost ids = id_seq(level@);
        assert(ids == self.plan()->0[self.levels_started() as int]);
        assert forall|m: int| 0 <= m < ids.len() implies 0 <= #[trigger] ids[m]
            < self.tasks.len() by {
            assert(ids[m] == id_table(order@)[self.next_level as int][m]);
        }
        assert forall|m: int, j: int|
            0 <= m < ids.len() && 0 <= j < ids.len() && #[trigger] ids[m] == #[trigger] ids[j] implies m
            == j by {
            assert(ids[m] == id_table(order@)[self.next_level as int][m]);
            assert(ids[j] == id_table(order@)[self.next_level as int][j]);
        }
        let mut k: usize = 0;
        while k < level.len()
            invariant
                k <= level.len(),
                *self == before,
                before == *old(self),
                before.well_formed(),
                before.failure() is None,
                ids == id_seq(level@),
                ids == self.plan()->0[self.levels_started() as int],
                self.plan() is Some,
                self.levels_started() < self.plan()->0.len(),
                forall|m: int| 0 <= m < ids.len() ==> 0 <= #[trigger] ids[m] < self.tasks.len(),
                forall|m: int|
                    0 <= m < k ==> self.tasks()[#[trigger] ids[m]].state
                        == PurtelTaskState::WAITING,
            decreases level.len() - k,
        {
            if self.tasks[level[k]].state() != PurtelTaskState::WAITING {
                assert(self.tasks()[self.plan()->0[self.levels_started() as int][k as int]].state
                    != PurtelTaskState::WAITING);
                assert(self.next_level_blocked());
                return Err(PurtelError::AlreadyDispatched);
            }
            k += 1;
        }
        assert(!before.next_level_blocked());
        let mut actions: Vec<F> = Vec::new();
        let mut k: usize = 0;
        while k < level.len()
            invariant
                k <= level.len(),
                ids == id_seq(level@),
                self.exe_order == before.exe_order,
                self.param_usage_desc == before.param_usage_desc,
                self.next_level == before.next_level,
                self.in_flight == before.in_flight,
                self.failed == before.failed,
                self.tasks.len() == before.tasks.len(),
                actions.len() == k,
                forall|m: int| 0 <= m < ids.len() ==> 0 <= #[trigger] ids[m] < self.tasks.len(),
                forall|m: int, j: int|
                    0 <= m < ids.len() && 0 <= j < ids.len() && #[trigger] ids[m]
                        == #[trigger] ids[j] ==> m == j,
                forall|m: int|
                    0 <= m < ids.len() ==> before.tasks[#[trigger] ids[m]]@.state
                        == PurtelTaskState::WAITING,
                forall|m: int|
                    0 <= m < k ==> before.tasks[ids[m]]@.action == Some(#[trigger] actions[m]),
                forall|m: int|
                    0 <= m < k ==> self.tasks[#[trigger] ids[m]]@ == (TaskView::<F> {
                        state: PurtelTaskState::DISPATCHED,
                        action: None,
                    }),
                forall|t: int|
                    0 <= t < self.tasks.len() && (forall|m: int|
                        0 <= m < k ==> #[trigger] ids[m] != t) ==> #[trigger] self.tasks[t]
                        == before.tasks[t],
            decreases level.len() - k,
        {
            let id: TaskId = level[k];
            let ghost taken_before = self.tasks@;
            assert(ids[k as int] == id);
            assert(self.tasks[id as int] == before.tasks[id as int]);
            match self.tasks[id].take_task() {
                Ok(action) => {
                    actions.push(action);
                },
                Err(error) => {
                    // every task of the level was found waiting
                    assert(false);
                    return Err(error);
                },
            }
            assert forall|t: int|
                0 <= t < self.tasks.len() && (forall|m: int|
                    0 <= m < k + 1 ==> #[trigger] ids[m] != t) implies #[trigger] self.tasks[t]
                == before.tasks[t] by {
                assert(ids[k as int] != t);
                assert(self.tasks[t] == taken_before[t]);
            }
            k += 1;
        }
        self.next_level = self.next_level + 1;
        self.in_flight = true;
        proof {
            let level_ids = before.plan()->0[before.levels_started() as int];
            assert(level_ids == ids);
            assert forall|t: int| 0 <= t < before.tasks().len() implies #[trigger] self.tasks()[t]
                == if level_ids.contains(t) {
                TaskView::<F> { state: PurtelTaskState::DISPATCHED, action: None }
            } else {
                before.tasks()[t]
            } by {
                if level_ids.contains(t) {
                    let m = choose|m: int| 0 <= m < ids.len() && ids[m] == t;
                    assert(self.tasks[ids[m]]@ == (TaskView::<F> {
                        state: PurtelTaskState::DISPATCHED,
                        action: None,
                    }));
                } else {
                    assert forall|m: int| 0 <= m < k implies #[trigger] ids[m] != t by {
                        assert(level_ids.contains(ids[m]));
                    }
                }
            }
            if before.intact() {
                assert forall|t: int| #[trigger] self.awaits_dispatch(t) implies self.tasks()[t].state
                    == PurtelTaskState::WAITING by {
                    let plan = self.plan()->0;
                    assert(!plan[before.next_level as int].contains(t));
                    assert(before.awaits_dispatch(t));
                }
            }
        }
        Ok(Some(actions))
    }

    /// Takes note that the workers of the level handed out last have all been
    /// joined. `outcomes` says of each of them, in the order of the level,
    /// whether it ended normally. If one did not, the run has failed: the
    /// error names the level and the first such task, and no further level
    /// will be handed out.
    pub fn join_level(&mut self, outcomes: &Vec<bool>) -> (joined: Result<(), PurtelError>)
        requires
            old(self).well_formed(),
            old(self).joining(),
            old(self).plan() is Some,
            outcomes.len() == old(self).joined_level().len(),
        ensures
            final(self).well_formed(),
            !final(self).joining(),
            final(self).plan() == old(self).plan(),
            final(self).declarations() == old(self).declarations(),
            final(self).tasks() == old(self).tasks(),
            final(self).levels_started() == old(self).levels_started(),
            (forall|k: int| 0 <= k < outcomes.len() ==> outcomes[k]) ==> {
                &&& joined is Ok
                &&& final(self).failure() is None
            },
            forall|k: int|
                0 <= k < outcomes.len() && !outcomes[k] && (forall|m: int|
                    0 <= m < k ==> outcomes[m]) ==> {
                    &&& joined is Err
                    &&& joined->Err_0 is TaskFailed
                    &&& joined->Err_0->wave == old(self).levels_started() - 1
                    &&& joined->Err_0->TaskFailed_task == old(self).joined_level()[k]
                    &&& final(self).failure() == Some(
                        (joined->Err_0->wave, joined->Err_0->TaskFailed_task),
                    )
                },
    {
        let ghost before = *self;
        self.in_flight = false;
        let wave = self.next_level - 1;
        let mut k: usize = 0;
        while k < outcomes.len()
            invariant
                k <= outcomes.len(),
                before == *old(self),
                before.well_formed(),
                before.in_flight,
                before.exe_order is Some,
                outcomes.len() == before.exe_order->0[wave as int].len(),
                wave == before.next_level - 1,
                self.exe_order == before.exe_order,
                self.param_usage_desc == before.param_usage_desc,
                self.tasks == before.tasks,
                self.next_level == before.next_level,
                self.failed == before.failed,
                !self.in_flight,
                forall|m: int| 0 <= m < k ==> outcomes[m],
            decreases outcomes.len() - k,
        {
            if !outcomes[k] {
                let task: TaskId = match &self.exe_order {
                    Some(order) => order[wave][k],
                    None => {
                        // a level is out, so there is a plan
                        assert(false);
                        0
                    },
                };
                self.failed = Some((wave, task));
                return Err(PurtelError::TaskFailed { wave, task });
            }
            k += 1;
        }
        Ok(())
    }
}

} // verus!
