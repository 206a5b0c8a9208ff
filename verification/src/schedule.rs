//! The wave scheduler: from a dependency table to the execution levels.
//!
//! The model of a dependency table is a sequence of sets: entry `i` is the set
//! of tasks that task `i` waits for. The levels are built in rounds. A round
//! takes every task that has no level yet and whose predecessors all have
//! one from earlier rounds, and makes a level of them. The scheduler is at a
//! deadlock when tasks are left and a round takes none of them.

use vstd::prelude::*;
use crate::depth::{execution_plan, lemma_execution_plan_is_round_plan};
use crate::error::PurtelError;
use crate::executor::PurtelExecutor;
use crate::types::{contains_task, id_seq, id_table, lemma_id_seq_contains, TaskDependencies,
    TaskExecutionLevel, TaskId};

verus! {

/// The sets of predecessors that a dependency table lists, task by task.
pub open spec fn predecessor_sets(table: Seq<Seq<int>>) -> Seq<Set<int>> {
    Seq::new(table.len(), |i: int| Set::new(|j: int| table[i].contains(j)))
}

/// Every task waits only for tasks that stand before it.
pub open spec fn precedes_earlier(preds: Seq<Set<int>>) -> bool {
    forall|i: int, j: int| 0 <= i < preds.len() && #[trigger] preds[i].contains(j) ==> 0 <= j < i
}

/// Every entry of a dependency table is smaller than the index of its owner.
pub open spec fn dependencies_well_formed(table: Seq<Seq<int>>) -> bool {
    forall|i: int, k: int|
        0 <= i < table.len() && 0 <= k < table[i].len() ==> 0 <= #[trigger] table[i][k] < i
}

/// Everything that task `i` waits for is in `done`.
pub open spec fn ready(preds: Seq<Set<int>>, done: Set<int>, i: int) -> bool {
    forall|j: int| #[trigger] preds[i].contains(j) ==> done.contains(j)
}

/// The tasks that have a level after the given number of rounds.
pub open spec fn assigned_after(preds: Seq<Set<int>>, rounds: nat) -> Set<int>
    decreases rounds,
{
    if rounds == 0 {
        Set::empty()
    } else {
        let before = assigned_after(preds, (rounds - 1) as nat);
        Set::new(|i: int| 0 <= i < preds.len() && (before.contains(i) || ready(preds, before, i)))
    }
}

/// Task `i` gets its level in round `round`, the first round being round 0.
pub open spec fn first_assigned_in(preds: Seq<Set<int>>, round: nat, i: int) -> bool {
    assigned_after(preds, round + 1).contains(i) && !assigned_after(preds, round).contains(i)
}

/// The tasks below `n` that get their level in round `round`, in ascending
/// order.
pub open spec fn round_members(preds: Seq<Set<int>>, round: nat, n: int) -> Seq<int>
    decreases n,
{
    if n <= 0 {
        Seq::empty()
    } else {
        let earlier = round_members(preds, round, n - 1);
        if first_assigned_in(preds, round, n - 1) {
            earlier.push(n - 1)
        } else {
            earlier
        }
    }
}

/// After the given number of rounds every task has its level.
pub open spec fn complete_after(preds: Seq<Set<int>>, rounds: nat) -> bool {
    forall|i: int| 0 <= i < preds.len() ==> #[trigger] assigned_after(preds, rounds).contains(i)
}

/// Some number of rounds gives every task its level: the scheduler does not
/// run into a deadlock.
pub open spec fn schedulable(preds: Seq<Set<int>>) -> bool {
    exists|rounds: nat| complete_after(preds, rounds)
}

/// `plan` is what the rounds make of `preds`: as many levels as it takes
/// rounds to give every task its level, and in level `r` the tasks that round
/// `r` takes, in ascending order.
pub open spec fn is_round_plan(preds: Seq<Set<int>>, plan: Seq<Seq<int>>) -> bool {
    &&& complete_after(preds, plan.len())
    &&& plan.len() > 0 ==> !complete_after(preds, (plan.len() - 1) as nat)
    &&& forall|r: int|
        0 <= r < plan.len() ==> #[trigger] plan[r] == round_members(
            preds,
            r as nat,
            preds.len() as int,
        )
}

/// Whether some level of `levels` holds task `id`.
pub open spec fn placed(levels: Seq<Vec<TaskId>>, id: TaskId) -> bool {
    exists|l: int| 0 <= l < levels.len() && (#[trigger] levels[l])@.contains(id)
}

/// The levels built so far are what the first rounds take.
pub open spec fn levels_follow_rounds(levels: Seq<Vec<TaskId>>, preds: Seq<Set<int>>) -> bool {
    forall|l: int|
        0 <= l < levels.len() ==> id_seq((#[trigger] levels[l])@) == round_members(
            preds,
            l as nat,
            preds.len() as int,
        )
}

/// How many entries of `marks` are `false`.
pub open spec fn count_false(marks: Seq<bool>) -> nat
    decreases marks.len(),
{
    if marks.len() == 0 {
        0
    } else {
        count_false(marks.drop_last()) + if marks.last() {
            0nat
        } else {
            1nat
        }
    }
}

/// To turn one `false` into `true` makes one `false` less.
pub proof fn lemma_count_false_update(marks: Seq<bool>, at: int)
    requires
        0 <= at < marks.len(),
        !marks[at],
    ensures
        count_false(marks.update(at, true)) + 1 == count_false(marks),
    decreases marks.len(),
{
    let updated = marks.update(at, true);
    if at == marks.len() - 1 {
        assert(updated.drop_last() =~= marks.drop_last());
    } else {
        lemma_count_false_update(marks.drop_last(), at);
        assert(updated.drop_last() =~= marks.drop_last().update(at, true));
    }
}

/// No round takes anything but tasks of the batch.
pub proof fn lemma_assigned_in_range(preds: Seq<Set<int>>, rounds: nat, i: int)
    requires
        assigned_after(preds, rounds).contains(i),
    ensures
        0 <= i < preds.len(),
        rounds > 0,
{
}

/// A task keeps the level it has.
pub proof fn lemma_assigned_monotone(preds: Seq<Set<int>>, fewer: nat, more: nat, i: int)
    requires
        fewer <= more,
        assigned_after(preds, fewer).contains(i),
    ensures
        assigned_after(preds, more).contains(i),
    decreases more,
{
    if fewer < more {
        lemma_assigned_monotone(preds, fewer, (more - 1) as nat, i);
        lemma_assigned_in_range(preds, fewer, i);
    }
}

/// Once complete, always complete.
pub proof fn lemma_complete_monotone(preds: Seq<Set<int>>, fewer: nat, more: nat)
    requires
        fewer <= more,
        complete_after(preds, fewer),
    ensures
        complete_after(preds, more),
{
    assert forall|i: int| 0 <= i < preds.len() implies #[trigger] assigned_after(
        preds,
        more,
    ).contains(i) by {
        lemma_assigned_monotone(preds, fewer, more, i);
    }
}

/// A task that has a level got it in one of the rounds.
pub proof fn lemma_first_round(preds: Seq<Set<int>>, rounds: nat, i: int) -> (round: nat)
    requires
        assigned_after(preds, rounds).contains(i),
    ensures
        round < rounds,
        first_assigned_in(preds, round, i),
    decreases rounds,
{
    let before = (rounds - 1) as nat;
    if assigned_after(preds, before).contains(i) {
        lemma_first_round(preds, before, i)
    } else {
        before
    }
}

/// What `round_members` holds.
pub proof fn lemma_round_members_contains(preds: Seq<Set<int>>, round: nat, n: int, t: int)
    ensures
        round_members(preds, round, n).contains(t) <==> 0 <= t < n && first_assigned_in(
            preds,
            round,
            t,
        ),
    decreases n,
{
    if n > 0 {
        lemma_round_members_contains(preds, round, n - 1, t);
        let earlier = round_members(preds, round, n - 1);
        if first_assigned_in(preds, round, n - 1) {
            let now = earlier.push(n - 1);
            assert(now.last() == n - 1);
            if earlier.contains(t) {
                let k = choose|k: int| 0 <= k < earlier.len() && earlier[k] == t;
                assert(now[k] == t);
            }
            if now.contains(t) {
                let k = choose|k: int| 0 <= k < now.len() && now[k] == t;
                if k < earlier.len() {
                    assert(earlier[k] == t);
                }
            }
        }
    }
}

/// Among the levels of the first rounds, a task is found exactly if one of
/// those rounds took it.
pub proof fn lemma_placed_iff_assigned(
    levels: Seq<Vec<TaskId>>,
    preds: Seq<Set<int>>,
    id: TaskId,
)
    requires
        levels_follow_rounds(levels, preds),
    ensures
        placed(levels, id) <==> assigned_after(preds, levels.len()).contains(id as int),
{
    let n = preds.len() as int;
    if placed(levels, id) {
        let l = choose|l: int| 0 <= l < levels.len() && (#[trigger] levels[l])@.contains(id);
        lemma_id_seq_contains(levels[l]@, id);
        lemma_round_members_contains(preds, l as nat, n, id as int);
        lemma_assigned_monotone(preds, (l + 1) as nat, levels.len(), id as int);
    }
    if assigned_after(preds, levels.len()).contains(id as int) {
        lemma_assigned_in_range(preds, levels.len(), id as int);
        let l = lemma_first_round(preds, levels.len(), id as int) as int;
        lemma_round_members_contains(preds, l as nat, n, id as int);
        lemma_id_seq_contains(levels[l]@, id);
        assert(levels[l]@.contains(id));
    }
}

/// A task is ready for the next round exactly if all that its entry of the
/// table lists is found in the levels built so far.
pub proof fn lemma_ready_iff_placed(
    task_deps: Seq<Vec<TaskId>>,
    levels: Seq<Vec<TaskId>>,
    id: TaskId,
)
    requires
        id < task_deps.len(),
        levels_follow_rounds(levels, predecessor_sets(id_table(task_deps))),
    ensures
        (forall|k: int|
            0 <= k < task_deps[id as int].len() ==> placed(
                levels,
                #[trigger] task_deps[id as int][k],
            )) <==> ready(
            predecessor_sets(id_table(task_deps)),
            assigned_after(predecessor_sets(id_table(task_deps)), levels.len()),
            id as int,
        ),
{
    let table = id_table(task_deps);
    let preds = predecessor_sets(table);
    let done = assigned_after(preds, levels.len());
    let i = id as int;
    if forall|k: int|
        0 <= k < task_deps[i].len() ==> placed(levels, #[trigger] task_deps[i][k]) {
        assert forall|j: int| #[trigger] preds[i].contains(j) implies done.contains(j) by {
            let k = choose|k: int| 0 <= k < table[i].len() && table[i][k] == j;
            assert(placed(levels, task_deps[i][k]));
            lemma_placed_iff_assigned(levels, preds, task_deps[i][k]);
        }
    }
    if ready(preds, done, i) {
        assert forall|k: int| 0 <= k < task_deps[i].len() implies placed(
            levels,
            #[trigger] task_deps[i][k],
        ) by {
            let d = task_deps[i][k];
            assert(table[i][k] == d as int);
            assert(preds[i].contains(d as int));
            lemma_placed_iff_assigned(levels, preds, d);
        }
    }
}

/// After a round that takes no task, no later round takes one.
pub proof fn lemma_stuck(preds: Seq<Set<int>>, round: nat, rounds: nat, i: int)
    requires
        forall|t: int| 0 <= t < preds.len() ==> !first_assigned_in(preds, round, t),
        assigned_after(preds, rounds).contains(i),
    ensures
        assigned_after(preds, round).contains(i),
    decreases rounds,
{
    if rounds > round + 1 {
        let before = (rounds - 1) as nat;
        if !assigned_after(preds, before).contains(i) {
            assert forall|j: int| #[trigger] preds[i].contains(j) implies assigned_after(
                preds,
                round,
            ).contains(j) by {
                lemma_stuck(preds, round, before, j);
            }
            assert(ready(preds, assigned_after(preds, round), i));
            assert(assigned_after(preds, round + 1).contains(i));
            assert(!first_assigned_in(preds, round, i));
        } else {
            lemma_stuck(preds, round, before, i);
        }
    } else if rounds == round + 1 {
        lemma_assigned_in_range(preds, rounds, i);
        assert(!first_assigned_in(preds, round, i));
    } else {
        lemma_assigned_monotone(preds, rounds, round, i);
    }
}

/// The rounds make one plan of a table and no other.
pub proof fn lemma_round_plan_unique(preds: Seq<Set<int>>, plan: Seq<Seq<int>>, other: Seq<Seq<int>>)
    requires
        is_round_plan(preds, plan),
        is_round_plan(preds, other),
    ensures
        plan == other,
{
    if plan.len() < other.len() {
        lemma_complete_monotone(preds, plan.len(), (other.len() - 1) as nat);
    }
    if other.len() < plan.len() {
        lemma_complete_monotone(preds, other.len(), (plan.len() - 1) as nat);
    }
    assert(plan =~= other);
}

/// Whether the map marks every task as assigned.
fn all_tasks_assigned(assigned: &Vec<bool>) -> (all: bool)
    ensures
        all == (forall|t: int| 0 <= t < assigned.len() ==> #[trigger] assigned[t]),
{
    let mut t: usize = 0;
    while t < assigned.len()
        invariant
            t <= assigned.len(),
            forall|m: int| 0 <= m < t ==> #[trigger] assigned[m],
        decreases assigned.len() - t,
    {
        if !assigned[t] {
            return false;
        }
        t += 1;
    }
    true
}

impl<F> PurtelExecutor<F> {
    /// Whether every task that task `id` waits for has its place in one of
    /// `execution_levels`.
    pub fn all_deps_already_assigned(
        id: TaskId,
        execution_levels: &Vec<TaskExecutionLevel>,
        task_deps: &Vec<TaskDependencies>,
    ) -> (all: bool)
        requires
            id < task_deps.len(),
        ensures
            all == (forall|k: int|
                0 <= k < task_deps[id as int].len() ==> placed(
                    execution_levels@,
                    #[trigger] task_deps[id as int][k],
                )),
    {
        let deps = &task_deps[id];
        let mut k: usize = 0;
        while k < deps.len()
            invariant
                id < task_deps.len(),
                *deps == task_deps[id as int],
                k <= deps.len(),
                forall|m: int| 0 <= m < k ==> placed(execution_levels@, #[trigger] deps[m]),
            decreases deps.len() - k,
        {
            let dep_task_id: TaskId = deps[k];
            let mut found = false;
            let mut l: usize = 0;
            while l < execution_levels.len() && !found
                invariant
                    l <= execution_levels.len(),
                    found ==> placed(execution_levels@, dep_task_id),
                    !found ==> forall|m: int|
                        0 <= m < l ==> !(#[trigger] execution_levels[m])@.contains(dep_task_id),
                decreases execution_levels.len() - l + if found { 0int } else { 1int },
            {
                if contains_task(&execution_levels[l], dep_task_id) {
                    found = true;
                } else {
                    l += 1;
                }
            }
            if !found {
                assert(!placed(execution_levels@, deps[k as int]));
                return false;
            }
            k += 1;
        }
        true
    }

    /// Groups the tasks into execution levels, round by round: every round
    /// makes a level of the tasks that have none yet and whose predecessors
    /// all got theirs in earlier rounds. Within a level the tasks stand in
    /// ascending order. If tasks are left and none of them can be taken, as
    /// happens where tasks wait for each other in a circle or for a task that
    /// the batch does not hold, the scheduler gives up.
    pub fn build_plan(task_deps: Vec<TaskDependencies>) -> (planned: Result<
        Vec<TaskExecutionLevel>,
        PurtelError,
    >)
        ensures
            match planned {
                Ok(levels) => is_round_plan(
                    predecessor_sets(id_table(task_deps@)),
                    id_table(levels@),
                ),
                Err(error) => error == PurtelError::WavePlanningDeadlock && !schedulable(
                    predecessor_sets(id_table(task_deps@)),
                ),
            },
    {
        let ghost preds = predecessor_sets(id_table(task_deps@));
        let n = task_deps.len();
        let mut execution_levels: Vec<TaskExecutionLevel> = Vec::new();
        let mut assigned: Vec<bool> = Vec::new();
        while assigned.len() < n
            invariant
                assigned.len() <= n,
                forall|t: int| 0 <= t < assigned.len() ==> !#[trigger] assigned[t],
            decreases n - assigned.len(),
        {
            assigned.push(false);
        }
        while !all_tasks_assigned(&assigned)
            invariant
                n == task_deps.len(),
                preds == predecessor_sets(id_table(task_deps@)),
                assigned.len() == n,
                forall|t: int|
                    0 <= t < n ==> (#[trigger] assigned[t] == assigned_after(
                        preds,
                        execution_levels.len() as nat,
                    ).contains(t)),
                levels_follow_rounds(execution_levels@, preds),
                execution_levels.len() > 0 ==> !complete_after(
                    preds,
                    (execution_levels.len() - 1) as nat,
                ),
            decreases count_false(assigned@),
        {
            let ghost round = execution_levels.len() as nat;
            let ghost at_start = assigned@;
            let ghost left = choose|t: int| 0 <= t < n && !#[trigger] assigned[t];
            assert(!assigned_after(preds, round).contains(left));
            let mut curr_exe_level: TaskExecutionLevel = Vec::new();
            let mut task_id: TaskId = 0;
            while task_id < n
                invariant
                    n == task_deps.len(),
                    preds == predecessor_sets(id_table(task_deps@)),
                    assigned.len() == n,
                    round == execution_levels.len(),
                    task_id <= n,
                    levels_follow_rounds(execution_levels@, preds),
                    forall|t: int|
                        0 <= t < task_id ==> (#[trigger] assigned[t] == assigned_after(
                            preds,
                            round + 1,
                        ).contains(t)),
                    forall|t: int|
                        task_id <= t < n ==> (#[trigger] assigned[t] == assigned_after(
                            preds,
                            round,
                        ).contains(t)),
                    id_seq(curr_exe_level@) == round_members(preds, round, task_id as int),
                    count_false(assigned@) + curr_exe_level.len() == count_false(at_start),
                decreases n - task_id,
            {
                if !assigned[task_id] {
                    let task_can_be_assigned = Self::all_deps_already_assigned(
                        task_id,
                        &execution_levels,
                        &task_deps,
                    );
                    proof {
                        lemma_ready_iff_placed(task_deps@, execution_levels@, task_id);
                    }
                    if task_can_be_assigned {
                        proof {
                            lemma_count_false_update(assigned@, task_id as int);
                        }
                        assigned.set(task_id, true);
                        curr_exe_level.push(task_id);
                        assert(id_seq(curr_exe_level@) =~= round_members(
                            preds,
                            round,
                            task_id as int,
                        ).push(task_id as int));
                    }
                }
                task_id += 1;
            }
            if curr_exe_level.len() == 0 {
                proof {
                    assert forall|t: int| 0 <= t < preds.len() implies !first_assigned_in(
                        preds,
                        round,
                        t,
                    ) by {
                        lemma_round_members_contains(preds, round, n as int, t);
                        if first_assigned_in(preds, round, t) {
                            let members = round_members(preds, round, n as int);
                            let k = choose|k: int| 0 <= k < members.len() && members[k] == t;
                            assert(id_seq(curr_exe_level@)[k] == t);
                        }
                    }
                    assert forall|rounds: nat| !complete_after(preds, rounds) by {
                        if assigned_after(preds, rounds).contains(left) {
                            lemma_stuck(preds, round, rounds, left);
                        }
                    }
                }
                return Err(PurtelError::WavePlanningDeadlock);
            }
            execution_levels.push(curr_exe_level);
        }
        proof {
            let plan = id_table(execution_levels@);
            assert forall|i: int| 0 <= i < preds.len() implies #[trigger] assigned_after(
                preds,
                plan.len(),
            ).contains(i) by {
                assert(assigned[i]);
            }
            assert forall|r: int| 0 <= r < plan.len() implies #[trigger] plan[r] == round_members(
                preds,
                r as nat,
                preds.len() as int,
            ) by {
                assert(plan[r] == id_seq(execution_levels[r]@));
            }
        }
        Ok(execution_levels)
    }

    /// Groups the tasks into execution levels. Level 0 holds the tasks that
    /// wait for nothing; every later level holds the tasks whose predecessors
    /// all belong to earlier levels and at least one of them to the level just
    /// before. Within a level the tasks stand in ascending order. In a table
    /// whose every entry stands before its owner there is no deadlock.
    pub fn calc_execution_levels(task_deps: Vec<TaskDependencies>) -> (levels: Vec<
        TaskExecutionLevel,
    >)
        requires
            dependencies_well_formed(id_table(task_deps@)),
        ensures
            id_table(levels@) == execution_plan(predecessor_sets(id_table(task_deps@))),
    {
        let ghost preds = predecessor_sets(id_table(task_deps@));
        proof {
            lemma_table_precedes(id_table(task_deps@));
            lemma_execution_plan_is_round_plan(preds);
        }
        match Self::build_plan(task_deps) {
            Ok(levels) => {
                proof {
                    lemma_round_plan_unique(preds, id_table(levels@), execution_plan(preds));
                }
                levels
            },
            Err(_) => {
                // a well-formed table leads to no deadlock
                assert(false);
                Vec::new()
            },
        }
    }
}

/// In a well-formed table every task waits only for tasks before it.
pub proof fn lemma_table_precedes(table: Seq<Seq<int>>)
    requires
        dependencies_well_formed(table),
    ensures
        precedes_earlier(predecessor_sets(table)),
{
    let preds = predecessor_sets(table);
    assert forall|i: int, j: int| 0 <= i < preds.len() && #[trigger] preds[i].contains(j) implies 0
        <= j < i by {
        let k = choose|k: int| 0 <= k < table[i].len() && table[i][k] == j;
        assert(0 <= table[i][k] < i);
    }
}

} // verus!
